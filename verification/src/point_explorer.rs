//! The vector store: an insertion-ordered map from point identifier to a
//! fixed-dimension vector, with optional metadata side tables and named URI
//! prefixes. Lookups by index and by identifier form a bijection over the
//! stored keys.

use crate::point_id::{uuid_text, PointId};
use crate::structure::{ext_of, path_join, path_join_spec, str_eq, NekoPoint, NekoPointExt};
use vstd::prelude::*;

verus! {

/// Errors of the vector store.
#[derive(Debug, Clone)]
pub enum PointExplorerError {
    /// A file could not be read or written.
    PathNotFound(String),
    /// Persisted data was malformed.
    SerdeError(String),
    /// A point identifier was not present in the store.
    PointNotFound(PointId),
}

/// One step of building the store: replace the vector of a present key in
/// place, or append a new key in insertion order.
pub open spec fn insert_model<T>(
    ids: Seq<PointId>,
    vecs: Seq<Seq<T>>,
    id: PointId,
    v: Seq<T>,
) -> (Seq<PointId>, Seq<Seq<T>>) {
    if ids.contains(id) {
        (ids, vecs.update(ids.index_of(id), v))
    } else {
        (ids.push(id), vecs.push(v))
    }
}

/// Folding `insert_model` over a sequence of points, in order.
pub open spec fn extend_model<T>(
    ids: Seq<PointId>,
    vecs: Seq<Seq<T>>,
    points: Seq<(PointId, Seq<T>)>,
) -> (Seq<PointId>, Seq<Seq<T>>)
    decreases points.len(),
{
    if points.len() == 0 {
        (ids, vecs)
    } else {
        let stepped = insert_model(ids, vecs, points[0].0, points[0].1);
        extend_model(stepped.0, stepped.1, points.drop_first())
    }
}

/// A named URI prefix: an absolute base URL, or a filesystem path.
#[derive(Debug, Clone)]
pub enum PointUri {
    Url(String),
    Path(String),
}

/// The normalised form of a text that is an absolute base URL; absent for
/// any other text. A function of the text alone.
pub uninterp spec fn url_parse_of(s: Seq<char>) -> Option<Seq<char>>;

/// Relies on url::Url::parse and url::Url::cannot_be_a_base: whether a text
/// is an absolute base URL, and its normalised form, are functions of the
/// text alone.
#[verifier::external_body]
fn parse_base_url(s: &str) -> (r: Option<String>)
    ensures
        match r {
            Some(u) => url_parse_of(s@) == Some(u@),
            None => url_parse_of(s@) is None,
        },
{
    match url::Url::parse(s) {
        Ok(u) if !u.cannot_be_a_base() => Some(u.into()),
        _ => None,
    }
}

/// The resolution of a relative name against a base URL; absent when the
/// base does not parse or the name does not resolve. A function of the two
/// texts alone.
pub uninterp spec fn url_join_of(base: Seq<char>, name: Seq<char>) -> Option<Seq<char>>;

/// Relies on url::Url::parse and url::Url::join: resolving a relative name
/// against a base URL is a function of the two texts alone.
#[verifier::external_body]
fn join_url(base: &str, name: &str) -> (r: Option<String>)
    ensures
        match r {
            Some(u) => url_join_of(base@, name@) == Some(u@),
            None => url_join_of(base@, name@) is None,
        },
{
    match url::Url::parse(base) {
        Ok(u) => u.join(name).ok().map(Into::into),
        Err(_) => None,
    }
}

/// The first metadata entry recorded for an identifier.
pub open spec fn assoc_point(entries: Seq<(PointId, NekoPoint)>, id: PointId) -> Option<NekoPoint>
    decreases entries.len(),
{
    if entries.len() == 0 {
        None
    } else if entries[0].0 == id {
        Some(entries[0].1)
    } else {
        assoc_point(entries.drop_first(), id)
    }
}

/// The first object-store entry recorded for an identifier.
pub open spec fn assoc_ext(entries: Seq<(PointId, NekoPointExt)>, id: PointId) -> Option<
    NekoPointExt,
>
    decreases entries.len(),
{
    if entries.len() == 0 {
        None
    } else if entries[0].0 == id {
        Some(entries[0].1)
    } else {
        assoc_ext(entries.drop_first(), id)
    }
}

/// The first URI prefix recorded under a name.
pub open spec fn assoc_uri(entries: Seq<(String, PointUri)>, name: Seq<char>) -> Option<PointUri>
    decreases entries.len(),
{
    if entries.len() == 0 {
        None
    } else if entries[0].0@ == name {
        Some(entries[0].1)
    } else {
        assoc_uri(entries.drop_first(), name)
    }
}

/// An insertion-ordered map from point identifier to a vector of fixed
/// dimension.
#[derive(Debug)]
pub struct PointExplorer<T> {
    ids: Vec<PointId>,
    vectors: Vec<Vec<T>>,
    dim: usize,
    point_uri_prefix_map: Option<Vec<(String, PointUri)>>,
    point_metadata: Option<Vec<(PointId, NekoPoint)>>,
    point_metadata_ext: Option<Vec<(PointId, NekoPointExt)>>,
}

impl<T> PointExplorer<T> {
    /// The stored identifiers, in insertion order.
    pub closed spec fn ids(&self) -> Seq<PointId> {
        self.ids@
    }

    /// The stored vectors, position-matched with `ids`.
    pub closed spec fn vectors(&self) -> Seq<Seq<T>> {
        self.vectors@.map_values(|v: Vec<T>| v@)
    }

    /// The dimension every stored vector has.
    pub closed spec fn dim(&self) -> nat {
        self.dim as nat
    }

    /// The named URI prefixes, when loaded.
    pub closed spec fn uri_prefixes(&self) -> Option<Seq<(String, PointUri)>> {
        match self.point_uri_prefix_map {
            Some(v) => Some(v@),
            None => None,
        }
    }

    /// The metadata side table, when loaded.
    pub closed spec fn metadata(&self) -> Option<Seq<(PointId, NekoPoint)>> {
        match self.point_metadata {
            Some(v) => Some(v@),
            None => None,
        }
    }

    /// The object-store side table, when loaded.
    pub closed spec fn metadata_ext(&self) -> Option<Seq<(PointId, NekoPointExt)>> {
        match self.point_metadata_ext {
            Some(v) => Some(v@),
            None => None,
        }
    }

    /// The side tables and prefixes, all together; unchanged by the map
    /// operations.
    pub open spec fn same_side_tables(&self, other: &Self) -> bool {
        &&& self.uri_prefixes() == other.uri_prefixes()
        &&& self.metadata() == other.metadata()
        &&& self.metadata_ext() == other.metadata_ext()
    }

    /// The store's invariant: keys and vectors are position-matched, keys are
    /// distinct, and every vector has the store's dimension.
    pub open spec fn wf(&self) -> bool {
        &&& self.vectors().len() == self.ids().len()
        &&& forall|i: int, j: int|
            0 <= i < j < self.ids().len() ==> self.ids()[i] != self.ids()[j]
        &&& forall|i: int| 0 <= i < self.vectors().len() ==> self.vectors()[i].len() == self.dim()
    }

    /// An empty store of the given dimension.
    pub fn new(dim: usize) -> (r: Self)
        ensures
            r.wf(),
            r.ids().len() == 0,
            r.dim() == dim,
            r.uri_prefixes() is None,
            r.metadata() is None,
            r.metadata_ext() is None,
    {
        PointExplorer {
            ids: Vec::new(),
            vectors: Vec::new(),
            dim,
            point_uri_prefix_map: None,
            point_metadata: None,
            point_metadata_ext: None,
        }
    }

    /// An empty store of the given dimension, with room reserved for
    /// `capacity` points.
    pub fn with_capacity(capacity: usize, dim: usize) -> (r: Self)
        ensures
            r.wf(),
            r.ids().len() == 0,
            r.dim() == dim,
            r.uri_prefixes() is None,
            r.metadata() is None,
            r.metadata_ext() is None,
    {
        PointExplorer {
            ids: Vec::with_capacity(capacity),
            vectors: Vec::with_capacity(capacity),
            dim,
            point_uri_prefix_map: None,
            point_metadata: None,
            point_metadata_ext: None,
        }
    }

    /// How many points the store holds.
    pub fn len(&self) -> (r: usize)
        ensures
            r == self.ids().len(),
    {
        self.ids.len()
    }

    /// Whether the store holds no point.
    pub fn is_empty(&self) -> (r: bool)
        ensures
            r == (self.ids().len() == 0),
    {
        self.ids.len() == 0
    }

    /// The position of an identifier, scanning in insertion order.
    fn find(&self, point_id: PointId) -> (r: Option<usize>)
        ensures
            match r {
                Some(i) => i < self.ids().len() && self.ids()[i as int] == point_id,
                None => !self.ids().contains(point_id),
            },
    {
        let mut i: usize = 0;
        while i < self.ids.len()
            invariant
                i <= self.ids@.len(),
                forall|j: int| 0 <= j < i ==> self.ids@[j] != point_id,
            decreases self.ids@.len() - i,
        {
            if self.ids[i] == point_id {
                return Some(i);
            }
            i = i + 1;
        }
        None
    }

    /// Whether the store holds the identifier.
    pub fn contains(&self, point_id: &PointId) -> (r: bool)
        ensures
            r == self.ids().contains(*point_id),
    {
        self.find(*point_id).is_some()
    }

    /// The index a present identifier was assigned by insertion order.
    pub fn uuid2index(&self, point_id: &PointId) -> (r: Option<usize>)
        ensures
            match r {
                Some(i) => i < self.ids().len() && self.ids()[i as int] == *point_id,
                None => !self.ids().contains(*point_id),
            },
    {
        self.find(*point_id)
    }

    /// The identifier at an insertion-order index.
    pub fn index2uuid(&self, index: usize) -> (r: Option<PointId>)
        ensures
            match r {
                Some(id) => index < self.ids().len() && id == self.ids()[index as int],
                None => index >= self.ids().len(),
            },
    {
        if index < self.ids.len() {
            Some(self.ids[index])
        } else {
            None
        }
    }

    /// The vector stored under an identifier.
    pub fn get_vector(&self, point_id: &PointId) -> (r: Option<&Vec<T>>)
        requires
            self.wf(),
        ensures
            match r {
                Some(v) => self.ids().contains(*point_id) && forall|i: int|
                    0 <= i < self.ids().len() && self.ids()[i] == *point_id
                        ==> v@ == self.vectors()[i],
                None => !self.ids().contains(*point_id),
            },
    {
        match self.find(*point_id) {
            Some(i) => Some(&self.vectors[i]),
            None => None,
        }
    }

    /// Insert a vector under an identifier: replace in place when the key is
    /// present, append in insertion order when it is not.
    pub fn insert(&mut self, point_id: PointId, vector: Vec<T>)
        requires
            old(self).wf(),
            vector@.len() == old(self).dim(),
        ensures
            final(self).wf(),
            final(self).dim() == old(self).dim(),
            final(self).same_side_tables(old(self)),
            (final(self).ids(), final(self).vectors()) == insert_model(
                old(self).ids(),
                old(self).vectors(),
                point_id,
                vector@,
            ),
            !old(self).ids().contains(point_id) ==> final(self).ids() == old(self).ids().push(
                point_id,
            ) && final(self).vectors() == old(self).vectors().push(vector@),
            old(self).ids().contains(point_id) ==> final(self).ids() == old(self).ids(),
    {
        let ghost old_ids = self.ids@;
        let ghost old_vecs = self.vectors();
        match self.find(point_id) {
            Some(i) => {
                proof {
                    let chosen = old_ids.index_of(point_id);
                    assert(old_ids.contains(point_id));
                    assert(0 <= chosen < old_ids.len() && old_ids[chosen] == point_id);
                    assert(chosen == i as int);
                }
                self.vectors.set(i, vector);
                proof {
                    assert(self.vectors() =~= old_vecs.update(i as int, vector@));
                }
            },
            None => {
                self.ids.push(point_id);
                self.vectors.push(vector);
                proof {
                    assert(self.vectors() =~= old_vecs.push(vector@));
                    assert(self.ids() =~= old_ids.push(point_id));
                }
            },
        }
    }

    /// Bulk-insert points, in the order given.
    pub fn extend(&mut self, points: Vec<(PointId, Vec<T>)>)
        requires
            old(self).wf(),
            forall|k: int| 0 <= k < points@.len() ==> (#[trigger] points@[k]).1@.len() == old(
                self,
            ).dim(),
        ensures
            final(self).wf(),
            final(self).dim() == old(self).dim(),
            final(self).same_side_tables(old(self)),
            (final(self).ids(), final(self).vectors()) == extend_model(
                old(self).ids(),
                old(self).vectors(),
                points@.map_values(|p: (PointId, Vec<T>)| (p.0, p.1@)),
            ),
    {
        let ghost all = points@.map_values(|p: (PointId, Vec<T>)| (p.0, p.1@));
        let ghost target = extend_model(old(self).ids(), old(self).vectors(), all);
        let mut rest = points;
        while rest.len() > 0
            invariant
                self.wf(),
                self.dim() == old(self).dim(),
                self.same_side_tables(old(self)),
                forall|k: int| 0 <= k < rest@.len() ==> (#[trigger] rest@[k]).1@.len()
                    == self.dim(),
                extend_model(
                    self.ids(),
                    self.vectors(),
                    rest@.map_values(|p: (PointId, Vec<T>)| (p.0, p.1@)),
                ) == target,
            decreases rest@.len(),
        {
            let ghost pre = rest@.map_values(|p: (PointId, Vec<T>)| (p.0, p.1@));
            let (id, v) = rest.remove(0);
            proof {
                assert(rest@.map_values(|p: (PointId, Vec<T>)| (p.0, p.1@)) =~= pre.drop_first());
                assert(pre[0] == (id, v@));
            }
            self.insert(id, v);
        }
        proof {
            assert(rest@.map_values(|p: (PointId, Vec<T>)| (p.0, p.1@)) =~= Seq::<(
                PointId,
                Seq<T>,
            )>::empty());
        }
    }

    /// Remove an identifier and its vector, shifting later points down and
    /// keeping their order. Returns the removed vector.
    pub fn remove(&mut self, point_id: &PointId) -> (r: Option<Vec<T>>)
        requires
            old(self).wf(),
        ensures
            final(self).wf(),
            final(self).dim() == old(self).dim(),
            final(self).same_side_tables(old(self)),
            match r {
                Some(v) => old(self).ids().contains(*point_id) && forall|i: int|
                    0 <= i < old(self).ids().len() && old(self).ids()[i] == *point_id ==> {
                        &&& final(self).ids() == old(self).ids().remove(i)
                        &&& final(self).vectors() == old(self).vectors().remove(i)
                        &&& v@ == old(self).vectors()[i]
                    },
                None => !old(self).ids().contains(*point_id) && final(self).ids() == old(
                    self,
                ).ids() && final(self).vectors() == old(self).vectors(),
            },
    {
        let ghost old_ids = self.ids@;
        let ghost old_vecs = self.vectors();
        match self.find(*point_id) {
            Some(i) => {
                self.ids.remove(i);
                let v = self.vectors.remove(i);
                proof {
                    assert(self.vectors() =~= old_vecs.remove(i as int));
                    lemma_distinct_remove(old_ids, i as int);
                }
                Some(v)
            },
            None => None,
        }
    }

    /// Drop every stored point; the dimension is kept.
    pub fn clear(&mut self)
        ensures
            final(self).wf(),
            final(self).dim() == old(self).dim(),
            final(self).same_side_tables(old(self)),
            final(self).ids().len() == 0,
    {
        self.ids.clear();
        self.vectors.clear();
    }

    /// Load the named URI prefixes: a value that parses as an absolute base
    /// URL becomes a URL prefix, anything else a path prefix.
    pub fn load_points_uri_prefix(&mut self, prefix: Vec<(String, String)>)
        ensures
            final(self).ids() == old(self).ids(),
            final(self).vectors() == old(self).vectors(),
            final(self).dim() == old(self).dim(),
            final(self).metadata() == old(self).metadata(),
            final(self).metadata_ext() == old(self).metadata_ext(),
            match final(self).uri_prefixes() {
                Some(es) => es.len() == prefix@.len() && forall|j: int|
                    0 <= j < prefix@.len() ==> (#[trigger] es[j]).0@ == prefix@[j].0@ && (
                    match url_parse_of(prefix@[j].1@) {
                        Some(u) => es[j].1 matches PointUri::Url(x) && x@ == u,
                        None => es[j].1 matches PointUri::Path(x) && x@ == prefix@[j].1@,
                    }),
                None => false,
            },
    {
        let mut parsed: Vec<(String, PointUri)> = Vec::new();
        let mut rest = prefix;
        let ghost all = rest@;
        let ghost mut k: nat = 0;
        proof {
            assert(rest@ =~= all.skip(0));
        }
        while rest.len() > 0
            invariant
                k <= all.len(),
                rest@ =~= all.skip(k as int),
                parsed@.len() == k,
                forall|j: int|
                    0 <= j < k ==> (#[trigger] parsed@[j]).0@ == all[j].0@ && (match url_parse_of(
                        all[j].1@,
                    ) {
                        Some(u) => parsed@[j].1 matches PointUri::Url(x) && x@ == u,
                        None => parsed@[j].1 matches PointUri::Path(x) && x@ == all[j].1@,
                    }),
            decreases rest@.len(),
        {
            proof {
                assert(all.skip(k as int)[0] == all[k as int]);
                assert(all.skip(k as int).drop_first() =~= all.skip(k as int + 1));
            }
            let (key, value) = rest.remove(0);
            let uri = match parse_base_url(value.as_str()) {
                Some(u) => PointUri::Url(u),
                None => PointUri::Path(value),
            };
            parsed.push((key, uri));
            proof {
                k = k + 1;
            }
        }
        self.point_uri_prefix_map = Some(parsed);
    }

    /// Load the metadata side table.
    pub fn set_metadata(&mut self, entries: Vec<(PointId, NekoPoint)>)
        ensures
            final(self).ids() == old(self).ids(),
            final(self).vectors() == old(self).vectors(),
            final(self).dim() == old(self).dim(),
            final(self).uri_prefixes() == old(self).uri_prefixes(),
            final(self).metadata_ext() == old(self).metadata_ext(),
            final(self).metadata() == Some(entries@),
    {
        self.point_metadata = Some(entries);
    }

    /// Load the object-store side table.
    pub fn set_metadata_ext(&mut self, entries: Vec<(PointId, NekoPointExt)>)
        ensures
            final(self).ids() == old(self).ids(),
            final(self).vectors() == old(self).vectors(),
            final(self).dim() == old(self).dim(),
            final(self).uri_prefixes() == old(self).uri_prefixes(),
            final(self).metadata() == old(self).metadata(),
            final(self).metadata_ext() == Some(entries@),
    {
        self.point_metadata_ext = Some(entries);
    }

    /// The metadata recorded for a point, when the table is loaded.
    pub open spec fn spec_point_metadata(&self, id: PointId) -> Option<NekoPoint> {
        match self.metadata() {
            Some(es) => assoc_point(es, id),
            None => None,
        }
    }

    /// The object-store data recorded for a point, when the table is loaded.
    pub open spec fn spec_point_ext(&self, id: PointId) -> Option<NekoPointExt> {
        match self.metadata_ext() {
            Some(es) => assoc_ext(es, id),
            None => None,
        }
    }

    /// The URI prefix recorded under a name, when the table is loaded.
    pub open spec fn spec_uri_prefix(&self, name: Seq<char>) -> Option<PointUri> {
        match self.uri_prefixes() {
            Some(es) => assoc_uri(es, name),
            None => None,
        }
    }

    /// Look a point's metadata up.
    pub fn get_point_metadata(&self, point_id: &PointId) -> (r: Option<&NekoPoint>)
        ensures
            match r {
                Some(p) => self.spec_point_metadata(*point_id) == Some(*p),
                None => self.spec_point_metadata(*point_id) is None,
            },
    {
        match &self.point_metadata {
            None => None,
            Some(entries) => {
                let mut i: usize = 0;
                proof {
                    assert(entries@.skip(0) =~= entries@);
                }
                while i < entries.len()
                    invariant
                        i <= entries@.len(),
                        self.metadata() == Some(entries@),
                        assoc_point(entries@, *point_id) == assoc_point(
                            entries@.skip(i as int),
                            *point_id,
                        ),
                    decreases entries@.len() - i,
                {
                    proof {
                        assert(entries@.skip(i as int).drop_first() =~= entries@.skip(
                            i as int + 1,
                        ));
                        assert(entries@.skip(i as int)[0] == entries@[i as int]);
                    }
                    if entries[i].0 == *point_id {
                        return Some(&entries[i].1);
                    }
                    i = i + 1;
                }
                proof {
                    assert(entries@.skip(i as int).len() == 0);
                }
                None
            },
        }
    }

    /// Look a point's object-store data up.
    fn get_point_ext(&self, point_id: &PointId) -> (r: Option<&NekoPointExt>)
        ensures
            match r {
                Some(p) => self.spec_point_ext(*point_id) == Some(*p),
                None => self.spec_point_ext(*point_id) is None,
            },
    {
        match &self.point_metadata_ext {
            None => None,
            Some(entries) => {
                let mut i: usize = 0;
                proof {
                    assert(entries@.skip(0) =~= entries@);
                }
                while i < entries.len()
                    invariant
                        i <= entries@.len(),
                        self.metadata_ext() == Some(entries@),
                        assoc_ext(entries@, *point_id) == assoc_ext(
                            entries@.skip(i as int),
                            *point_id,
                        ),
                    decreases entries@.len() - i,
                {
                    proof {
                        assert(entries@.skip(i as int).drop_first() =~= entries@.skip(
                            i as int + 1,
                        ));
                        assert(entries@.skip(i as int)[0] == entries@[i as int]);
                    }
                    if entries[i].0 == *point_id {
                        return Some(&entries[i].1);
                    }
                    i = i + 1;
                }
                proof {
                    assert(entries@.skip(i as int).len() == 0);
                }
                None
            },
        }
    }

    /// The URI prefix recorded under a name.
    pub fn get_uri_prefix(&self, name: &str) -> (r: Option<&PointUri>)
        ensures
            match r {
                Some(p) => self.spec_uri_prefix(name@) == Some(*p),
                None => self.spec_uri_prefix(name@) is None,
            },
    {
        match &self.point_uri_prefix_map {
            None => None,
            Some(entries) => {
                let mut i: usize = 0;
                proof {
                    assert(entries@.skip(0) =~= entries@);
                }
                while i < entries.len()
                    invariant
                        i <= entries@.len(),
                        self.uri_prefixes() == Some(entries@),
                        assoc_uri(entries@, name@) == assoc_uri(entries@.skip(i as int), name@),
                    decreases entries@.len() - i,
                {
                    proof {
                        assert(entries@.skip(i as int).drop_first() =~= entries@.skip(
                            i as int + 1,
                        ));
                        assert(entries@.skip(i as int)[0] == entries@[i as int]);
                    }
                    if str_eq(entries[i].0.as_str(), name) {
                        return Some(&entries[i].1);
                    }
                    i = i + 1;
                }
                proof {
                    assert(entries@.skip(i as int).len() == 0);
                }
                None
            },
        }
    }

    /// The URI a point resolves to under a named prefix: the identifier and
    /// the recorded file extension joined to the prefix, as a URL when the
    /// prefix is one, as a filesystem path otherwise.
    pub open spec fn spec_point_uri(&self, prefix_name: Seq<char>, id: PointId) -> Option<
        Seq<char>,
    > {
        match self.spec_uri_prefix(prefix_name) {
            None => None,
            Some(pu) => match self.spec_point_ext(id) {
                None => None,
                Some(e) => {
                    let filename = uuid_text(id.value) + "."@ + ext_of(e.file_path@);
                    match pu {
                        PointUri::Url(b) => url_join_of(b@, filename),
                        PointUri::Path(b) => Some(path_join_spec(b@, filename)),
                    }
                },
            },
        }
    }

    /// Resolve the URI of a point under a named prefix.
    pub fn get_point_uri(&self, pm_prefix: &str, point_id: &PointId) -> (r: Option<String>)
        ensures
            match r {
                Some(u) => self.spec_point_uri(pm_prefix@, *point_id) == Some(u@),
                None => self.spec_point_uri(pm_prefix@, *point_id) is None,
            },
    {
        let prefix = match self.get_uri_prefix(pm_prefix) {
            Some(p) => p,
            None => {
                return None;
            },
        };
        let point = match self.get_point_ext(point_id) {
            Some(p) => p,
            None => {
                return None;
            },
        };
        proof {
            reveal_strlit(".");
        }
        let filename = point_id.hyphenated().concat(".").concat(point.ext());
        match prefix {
            PointUri::Url(base) => join_url(base.as_str(), filename.as_str()),
            PointUri::Path(base) => Some(path_join(base.as_str(), filename.as_str())),
        }
    }

    /// Both vectors of a pair of identifiers; the first absent identifier of
    /// the pair otherwise.
    pub fn get_vector_pair(&self, point_id: (&PointId, &PointId)) -> (r: Result<
        (&Vec<T>, &Vec<T>),
        PointExplorerError,
    >)
        requires
            self.wf(),
        ensures
            match r {
                Ok(pair) => {
                    &&& self.ids().contains(*point_id.0)
                    &&& self.ids().contains(*point_id.1)
                    &&& forall|i: int|
                        0 <= i < self.ids().len() && self.ids()[i] == *point_id.0
                            ==> pair.0@ == self.vectors()[i]
                    &&& forall|i: int|
                        0 <= i < self.ids().len() && self.ids()[i] == *point_id.1
                            ==> pair.1@ == self.vectors()[i]
                },
                Err(PointExplorerError::PointNotFound(m)) => (m == *point_id.0 && !self.ids()
                    .contains(*point_id.0)) || (m == *point_id.1 && self.ids().contains(
                    *point_id.0,
                ) && !self.ids().contains(*point_id.1)),
                Err(_) => false,
            },
    {
        let (id_a, id_b) = point_id;
        let va = match self.get_vector(id_a) {
            Some(v) => v,
            None => {
                return Err(PointExplorerError::PointNotFound(*id_a));
            },
        };
        let vb = match self.get_vector(id_b) {
            Some(v) => v,
            None => {
                return Err(PointExplorerError::PointNotFound(*id_b));
            },
        };
        Ok((va, vb))
    }
}

/// Law: the stored identifiers and the insertion-order indices are in
/// bijection. Looking up the index of a held identifier and reading the
/// identifier at that index gives the identifier back, and the index of the
/// identifier at any position is that position.
pub proof fn lemma_index_bijection<T>(pe: &PointExplorer<T>)
    requires
        pe.wf(),
    ensures
        forall|id: PointId|
            pe.ids().contains(id) ==> pe.ids()[#[trigger] pe.ids().index_of(id)] == id,
        forall|i: int|
            0 <= i < pe.ids().len() ==> #[trigger] pe.ids().index_of(pe.ids()[i]) == i,
{
    assert forall|id: PointId| pe.ids().contains(id) implies pe.ids()[#[trigger] pe.ids().index_of(
        id,
    )] == id by {
        let j = pe.ids().index_of(id);
        assert(0 <= j < pe.ids().len() && pe.ids()[j] == id);
    }
    assert forall|i: int| 0 <= i < pe.ids().len() implies #[trigger] pe.ids().index_of(
        pe.ids()[i],
    ) == i by {
        assert(pe.ids().contains(pe.ids()[i]));
        let j = pe.ids().index_of(pe.ids()[i]);
        assert(0 <= j < pe.ids().len() && pe.ids()[j] == pe.ids()[i]);
        if i < j {
            assert(pe.ids()[i] != pe.ids()[j]);
        }
        if j < i {
            assert(pe.ids()[j] != pe.ids()[i]);
        }
    }
}

/// Law: removing an identifier and inserting it again with the same vector
/// restores the vector stored under the identifier; only the identifier's
/// insertion-order index may change, since removal shifts later points down.
pub proof fn lemma_remove_insert_restores<T>(ids: Seq<PointId>, vecs: Seq<Seq<T>>, at: int)
    requires
        ids.len() == vecs.len(),
        forall|i: int, j: int| 0 <= i < j < ids.len() ==> ids[i] != ids[j],
        0 <= at < ids.len(),
    ensures
        ({
            let stepped = insert_model(ids.remove(at), vecs.remove(at), ids[at], vecs[at]);
            &&& stepped.0.len() == ids.len()
            &&& stepped.0.contains(ids[at])
            &&& forall|j: int|
                0 <= j < stepped.0.len() && stepped.0[j] == ids[at] ==> stepped.1[j] == vecs[at]
            &&& stepped.0.index_of(ids[at]) == ids.len() - 1
        }),
{
    let removed_ids = ids.remove(at);
    let removed_vecs = vecs.remove(at);
    assert(!removed_ids.contains(ids[at])) by {
        if removed_ids.contains(ids[at]) {
            let j = choose|j: int|
                0 <= j < removed_ids.len() && removed_ids[j] == ids[at];
            let oj = if j < at {
                j
            } else {
                j + 1
            };
            assert(removed_ids[j] == ids[oj]);
            if oj < at {
                assert(ids[oj] != ids[at]);
            } else {
                assert(ids[at] != ids[oj]);
            }
        }
    }
    let stepped = insert_model(removed_ids, removed_vecs, ids[at], vecs[at]);
    assert(stepped.0 == removed_ids.push(ids[at]));
    assert(stepped.0[ids.len() - 1] == ids[at]);
    assert(stepped.0.contains(ids[at]));
    assert forall|j: int| 0 <= j < stepped.0.len() && stepped.0[j] == ids[at] implies stepped.1[j]
        == vecs[at] by {
        if j < ids.len() - 1 {
            assert(stepped.0[j] == removed_ids[j]);
        }
    }
    lemma_distinct_remove(ids, at);
    let k = stepped.0.index_of(ids[at]);
    assert(0 <= k < stepped.0.len() && stepped.0[k] == ids[at]);
    if k < ids.len() - 1 {
        assert(removed_ids[k] == ids[at]);
    }
}

/// The little-endian bytes of a vector of 32-bit elements, in order.
pub open spec fn enc_vec_u32(v: Seq<u32>) -> Seq<u8>
    decreases v.len(),
{
    if v.len() == 0 {
        Seq::empty()
    } else {
        vstd::bytes::spec_u32_to_le_bytes(v[0]) + enc_vec_u32(v.drop_first())
    }
}

/// The bytes of the stored points, in order: each identifier as 16
/// little-endian bytes, then its vector.
pub open spec fn enc_entries_u32(entries: Seq<(PointId, Seq<u32>)>) -> Seq<u8>
    decreases entries.len(),
{
    if entries.len() == 0 {
        Seq::empty()
    } else {
        vstd::bytes::spec_u128_to_le_bytes(entries[0].0.value) + enc_vec_u32(entries[0].1)
            + enc_entries_u32(entries.drop_first())
    }
}

/// The persisted form of a store: the point count and the dimension as
/// little-endian 64-bit values, then the points in insertion order.
pub open spec fn encode_store_u32(entries: Seq<(PointId, Seq<u32>)>, dim: u64) -> Seq<u8> {
    vstd::bytes::spec_u64_to_le_bytes(entries.len() as u64) + vstd::bytes::spec_u64_to_le_bytes(
        dim,
    ) + enc_entries_u32(entries)
}

/// Parse one vector of `dim` 32-bit elements; the value and the remaining
/// bytes, or nothing when the bytes run short.
pub open spec fn dec_vec_u32(bytes: Seq<u8>, dim: nat) -> Option<(Seq<u32>, Seq<u8>)>
    decreases dim,
{
    if dim == 0 {
        Some((Seq::empty(), bytes))
    } else if bytes.len() < 4 {
        None
    } else {
        match dec_vec_u32(bytes.skip(4), (dim - 1) as nat) {
            Some(pr) => Some(
                (seq![vstd::bytes::spec_u32_from_le_bytes(bytes.take(4))] + pr.0, pr.1),
            ),
            None => None,
        }
    }
}

/// Parse `count` points of dimension `dim`.
pub open spec fn dec_entries_u32(bytes: Seq<u8>, count: nat, dim: nat) -> Option<
    (Seq<(PointId, Seq<u32>)>, Seq<u8>),
>
    decreases count,
{
    if count == 0 {
        Some((Seq::empty(), bytes))
    } else if bytes.len() < 16 {
        None
    } else {
        let id = PointId { value: vstd::bytes::spec_u128_from_le_bytes(bytes.take(16)) };
        match dec_vec_u32(bytes.skip(16), dim) {
            Some(pv) => match dec_entries_u32(pv.1, (count - 1) as nat, dim) {
                Some(pe) => Some((seq![(id, pv.0)] + pe.0, pe.1)),
                None => None,
            },
            None => None,
        }
    }
}

/// Parse a whole persisted store: the points and the dimension, or nothing
/// when the bytes are not exactly one encoded store.
pub open spec fn decode_store_u32(bytes: Seq<u8>) -> Option<(Seq<(PointId, Seq<u32>)>, u64)> {
    if bytes.len() < 16 {
        None
    } else {
        let count = vstd::bytes::spec_u64_from_le_bytes(bytes.take(8));
        let dim = vstd::bytes::spec_u64_from_le_bytes(bytes.subrange(8, 16));
        match dec_entries_u32(bytes.skip(16), count as nat, dim as nat) {
            Some(pe) => if pe.1.len() == 0 {
                Some((pe.0, dim))
            } else {
                None
            },
            None => None,
        }
    }
}

/// Appending one element extends the encoding at its end.
proof fn lemma_enc_vec_push(v: Seq<u32>, x: u32)
    ensures
        enc_vec_u32(v.push(x)) == enc_vec_u32(v) + vstd::bytes::spec_u32_to_le_bytes(x),
    decreases v.len(),
{
    if v.len() == 0 {
        assert((v.push(x))[0] == x);
        assert(v.push(x).drop_first() =~= Seq::<u32>::empty());
        assert(enc_vec_u32(v.push(x)) == vstd::bytes::spec_u32_to_le_bytes(x) + enc_vec_u32(
            Seq::<u32>::empty(),
        ));
        assert(enc_vec_u32(Seq::<u32>::empty()) =~= Seq::<u8>::empty());
        assert(enc_vec_u32(v) =~= Seq::<u8>::empty());
        assert(enc_vec_u32(v.push(x)) =~= enc_vec_u32(v) + vstd::bytes::spec_u32_to_le_bytes(x));
    } else {
        assert(v.push(x).drop_first() =~= v.drop_first().push(x));
        lemma_enc_vec_push(v.drop_first(), x);
        assert(enc_vec_u32(v.push(x)) =~= enc_vec_u32(v) + vstd::bytes::spec_u32_to_le_bytes(x));
    }
}

/// Appending one point extends the encoding at its end.
proof fn lemma_enc_entries_push(entries: Seq<(PointId, Seq<u32>)>, id: PointId, v: Seq<u32>)
    ensures
        enc_entries_u32(entries.push((id, v))) == enc_entries_u32(entries)
            + vstd::bytes::spec_u128_to_le_bytes(id.value) + enc_vec_u32(v),
    decreases entries.len(),
{
    if entries.len() == 0 {
        assert((entries.push((id, v)))[0] == (id, v));
        assert(entries.push((id, v)).drop_first() =~= Seq::<(PointId, Seq<u32>)>::empty());
        assert(enc_entries_u32(entries.push((id, v))) == vstd::bytes::spec_u128_to_le_bytes(
            id.value,
        ) + enc_vec_u32(v) + enc_entries_u32(Seq::<(PointId, Seq<u32>)>::empty()));
        assert(enc_entries_u32(Seq::<(PointId, Seq<u32>)>::empty()) =~= Seq::<u8>::empty());
        assert(enc_entries_u32(entries) =~= Seq::<u8>::empty());
        assert(enc_entries_u32(entries.push((id, v))) =~= enc_entries_u32(entries)
            + vstd::bytes::spec_u128_to_le_bytes(id.value) + enc_vec_u32(v));
    } else {
        assert(entries.push((id, v)).drop_first() =~= entries.drop_first().push((id, v)));
        lemma_enc_entries_push(entries.drop_first(), id, v);
        assert(enc_entries_u32(entries.push((id, v))) =~= enc_entries_u32(entries)
            + vstd::bytes::spec_u128_to_le_bytes(id.value) + enc_vec_u32(v));
    }
}

/// Decoding inverts encoding, one vector at a time.
proof fn lemma_dec_vec_roundtrip(v: Seq<u32>, rest: Seq<u8>)
    ensures
        dec_vec_u32(enc_vec_u32(v) + rest, v.len()) == Some((v, rest)),
    decreases v.len(),
{
    vstd::bytes::lemma_auto_spec_u32_to_from_le_bytes();
    if v.len() == 0 {
        assert(enc_vec_u32(v) + rest =~= rest);
    } else {
        let head = vstd::bytes::spec_u32_to_le_bytes(v[0]);
        let bytes = enc_vec_u32(v) + rest;
        assert(bytes =~= head + (enc_vec_u32(v.drop_first()) + rest));
        assert(bytes.take(4) =~= head);
        assert(bytes.skip(4) =~= enc_vec_u32(v.drop_first()) + rest);
        lemma_dec_vec_roundtrip(v.drop_first(), rest);
        assert(seq![v[0]] + v.drop_first() =~= v);
    }
}

/// Decoding inverts encoding, one point at a time.
proof fn lemma_dec_entries_roundtrip(entries: Seq<(PointId, Seq<u32>)>, rest: Seq<u8>, dim: nat)
    requires
        forall|k: int| 0 <= k < entries.len() ==> (#[trigger] entries[k]).1.len() == dim,
    ensures
        dec_entries_u32(enc_entries_u32(entries) + rest, entries.len(), dim) == Some(
            (entries, rest),
        ),
    decreases entries.len(),
{
    vstd::bytes::lemma_auto_spec_u128_to_from_le_bytes();
    if entries.len() == 0 {
        assert(enc_entries_u32(entries) + rest =~= rest);
    } else {
        let head = vstd::bytes::spec_u128_to_le_bytes(entries[0].0.value);
        let bytes = enc_entries_u32(entries) + rest;
        assert(bytes =~= head + (enc_vec_u32(entries[0].1) + (enc_entries_u32(
            entries.drop_first(),
        ) + rest)));
        assert(bytes.take(16) =~= head);
        assert(bytes.skip(16) =~= enc_vec_u32(entries[0].1) + (enc_entries_u32(
            entries.drop_first(),
        ) + rest));
        lemma_dec_vec_roundtrip(entries[0].1, enc_entries_u32(entries.drop_first()) + rest);
        assert(entries[0].1.len() == dim);
        lemma_dec_entries_roundtrip(entries.drop_first(), rest, dim);
        assert(PointId { value: vstd::bytes::spec_u128_from_le_bytes(head) } == entries[0].0);
        assert(seq![(entries[0].0, entries[0].1)] + entries.drop_first() =~= entries);
    }
}

/// Law: a persisted store decodes back to exactly the points and dimension
/// it was encoded from.
pub proof fn lemma_store_roundtrip(entries: Seq<(PointId, Seq<u32>)>, dim: u64)
    requires
        entries.len() <= u64::MAX,
        forall|k: int| 0 <= k < entries.len() ==> (#[trigger] entries[k]).1.len() == dim,
    ensures
        decode_store_u32(encode_store_u32(entries, dim)) == Some((entries, dim)),
{
    vstd::bytes::lemma_auto_spec_u64_to_from_le_bytes();
    let cb = vstd::bytes::spec_u64_to_le_bytes(entries.len() as u64);
    let db = vstd::bytes::spec_u64_to_le_bytes(dim);
    let body = enc_entries_u32(entries);
    let bytes = encode_store_u32(entries, dim);
    assert(bytes =~= cb + db + body);
    assert(bytes.len() >= 16);
    assert(bytes.take(8) =~= cb);
    assert(bytes.subrange(8, 16) =~= db);
    assert(bytes.skip(16) =~= body);
    assert(body + Seq::<u8>::empty() =~= body);
    lemma_dec_entries_roundtrip(entries, Seq::empty(), dim as nat);
}

/// Extending an empty store with distinct fresh points appends them in
/// order.
pub proof fn lemma_extend_distinct(
    acc_ids: Seq<PointId>,
    acc_vecs: Seq<Seq<u32>>,
    entries: Seq<(PointId, Seq<u32>)>,
)
    requires
        forall|k: int| 0 <= k < entries.len() ==> !acc_ids.contains((#[trigger] entries[k]).0),
        forall|k1: int, k2: int|
            0 <= k1 < k2 < entries.len() ==> entries[k1].0 != entries[k2].0,
    ensures
        extend_model(acc_ids, acc_vecs, entries) == (
            acc_ids + entries.map_values(|e: (PointId, Seq<u32>)| e.0),
            acc_vecs + entries.map_values(|e: (PointId, Seq<u32>)| e.1),
        ),
    decreases entries.len(),
{
    if entries.len() == 0 {
        assert(acc_ids + entries.map_values(|e: (PointId, Seq<u32>)| e.0) =~= acc_ids);
        assert(acc_vecs + entries.map_values(|e: (PointId, Seq<u32>)| e.1) =~= acc_vecs);
    } else {
        assert(!acc_ids.contains(entries[0].0));
        let stepped_ids = acc_ids.push(entries[0].0);
        let stepped_vecs = acc_vecs.push(entries[0].1);
        let rest = entries.drop_first();
        assert forall|k: int| 0 <= k < rest.len() implies !stepped_ids.contains(
            (#[trigger] rest[k]).0,
        ) by {
            assert(rest[k] == entries[k + 1]);
            if stepped_ids.contains(rest[k].0) {
                let t = choose|t: int| 0 <= t < stepped_ids.len() && stepped_ids[t] == rest[k].0;
                if t < acc_ids.len() {
                    assert(acc_ids.contains(entries[k + 1].0));
                } else {
                    assert(entries[0].0 == entries[k + 1].0);
                }
            }
        }
        assert forall|k1: int, k2: int|
            0 <= k1 < k2 < rest.len() implies rest[k1].0 != rest[k2].0 by {
            assert(rest[k1] == entries[k1 + 1]);
            assert(rest[k2] == entries[k2 + 1]);
        }
        lemma_extend_distinct(stepped_ids, stepped_vecs, rest);
        assert(stepped_ids + rest.map_values(|e: (PointId, Seq<u32>)| e.0) =~= acc_ids
            + entries.map_values(|e: (PointId, Seq<u32>)| e.0));
        assert(stepped_vecs + rest.map_values(|e: (PointId, Seq<u32>)| e.1) =~= acc_vecs
            + entries.map_values(|e: (PointId, Seq<u32>)| e.1));
    }
}

impl PointExplorer<u32> {
    /// The stored points as identifier and vector pairs, in order.
    pub open spec fn entries_view(&self) -> Seq<(PointId, Seq<u32>)> {
        Seq::new(self.ids().len(), |i: int| (self.ids()[i], self.vectors()[i]))
    }

    /// The persisted byte form of this store: the count and dimension, then
    /// each point's identifier and vector, all little-endian.
    pub fn to_bytes(&self) -> (r: Vec<u8>)
        requires
            self.wf(),
        ensures
            r@ == encode_store_u32(self.entries_view(), self.dim() as u64),
    {
        let count = self.ids.len();
        let mut out = vstd::bytes::u64_to_le_bytes(count as u64);
        let mut dim_bytes = vstd::bytes::u64_to_le_bytes(self.dim as u64);
        out.append(&mut dim_bytes);
        let ghost header = vstd::bytes::spec_u64_to_le_bytes(count as u64)
            + vstd::bytes::spec_u64_to_le_bytes(self.dim as u64);
        proof {
            assert(out@ =~= header);
            assert(self.entries_view().take(0) =~= Seq::<(PointId, Seq<u32>)>::empty());
            assert(out@ =~= header + enc_entries_u32(self.entries_view().take(0)));
        }
        let mut i: usize = 0;
        while i < count
            invariant
                i <= count,
                count == self.ids().len(),
                self.wf(),
                out@ == header + enc_entries_u32(self.entries_view().take(i as int)),
            decreases count - i,
        {
            let ghost pre_entries = self.entries_view().take(i as int);
            let mut id_bytes = vstd::bytes::u128_to_le_bytes(self.ids[i].value);
            out.append(&mut id_bytes);
            let v = &self.vectors[i];
            let ghost vec_base = out@;
            let mut j: usize = 0;
            proof {
                assert(v@.take(0) =~= Seq::<u32>::empty());
                assert(out@ =~= vec_base + enc_vec_u32(v@.take(0)));
            }
            while j < v.len()
                invariant
                    j <= v@.len(),
                    out@ == vec_base + enc_vec_u32(v@.take(j as int)),
                decreases v@.len() - j,
            {
                let mut e = vstd::bytes::u32_to_le_bytes(v[j]);
                out.append(&mut e);
                proof {
                    assert(v@.take(j as int + 1) =~= v@.take(j as int).push(v@[j as int]));
                    lemma_enc_vec_push(v@.take(j as int), v@[j as int]);
                    assert(out@ =~= vec_base + enc_vec_u32(v@.take(j as int + 1)));
                }
                j = j + 1;
            }
            proof {
                assert(v@.take(v@.len() as int) =~= v@);
                assert(self.entries_view().take(i as int + 1) =~= pre_entries.push(
                    (self.ids()[i as int], self.vectors()[i as int]),
                ));
                lemma_enc_entries_push(pre_entries, self.ids()[i as int], self.vectors()[i as int]);
                assert(self.vectors()[i as int] == v@);
                assert(out@ =~= header + enc_entries_u32(self.entries_view().take(i as int + 1)));
            }
            i = i + 1;
        }
        proof {
            assert(self.entries_view().take(count as int) =~= self.entries_view());
        }
        out
    }

    /// Rebuild a store from its persisted byte form; the points are
    /// re-inserted in their stored order. Malformed bytes are refused.
    pub fn from_bytes(bytes: &[u8]) -> (r: Result<PointExplorer<u32>, PointExplorerError>)
        ensures
            match r {
                Ok(pe) => {
                    &&& decode_store_u32(bytes@) matches Some(d) && pe.dim() == d.1
                        && d.1 <= usize::MAX && (pe.ids(), pe.vectors()) == extend_model(
                        Seq::empty(),
                        Seq::empty(),
                        d.0,
                    )
                    &&& pe.wf()
                },
                Err(PointExplorerError::SerdeError(_)) => decode_store_u32(bytes@) is None || (
                decode_store_u32(bytes@) matches Some(d) && d.1 > usize::MAX),
                Err(_) => false,
            },
    {
        let n = bytes.len();
        if n < 16 {
            return Err(PointExplorerError::SerdeError(error_text()));
        }
        let count = vstd::bytes::u64_from_le_bytes(vstd::slice::slice_subrange(bytes, 0, 8));
        let dim64 = vstd::bytes::u64_from_le_bytes(vstd::slice::slice_subrange(bytes, 8, 16));
        if dim64 > usize::MAX as u64 {
            proof {
                assert(bytes@.take(8) =~= bytes@.subrange(0, 8));
            }
            return Err(PointExplorerError::SerdeError(error_text()));
        }
        let dim = dim64 as usize;
        let ghost all = bytes@.skip(16);
        let mut entries: Vec<(PointId, Vec<u32>)> = Vec::new();
        let mut off: usize = 16;
        let mut i: u64 = 0;
        proof {
            assert(bytes@.skip(off as int) =~= all);
        }
        while i < count
            invariant
                i <= count,
                16 <= off <= bytes@.len(),
                n == bytes@.len(),
                dim64 == dim,
                count == vstd::bytes::spec_u64_from_le_bytes(bytes@.take(8)),
                dim64 == vstd::bytes::spec_u64_from_le_bytes(bytes@.subrange(8, 16)),
                all == bytes@.skip(16),
                entries@.len() == i,
                forall|k: int| 0 <= k < entries@.len() ==> (#[trigger] entries@[k]).1@.len() == dim,
                dec_entries_u32(all, count as nat, dim as nat) == (match dec_entries_u32(
                    bytes@.skip(off as int),
                    (count - i) as nat,
                    dim as nat,
                ) {
                    Some(pe) => Some(
                        (
                            entries@.map_values(|e: (PointId, Vec<u32>)| (e.0, e.1@)) + pe.0,
                            pe.1,
                        ),
                    ),
                    None => None,
                }),
            decreases count - i,
        {
            let ghost pre = entries@.map_values(|e: (PointId, Vec<u32>)| (e.0, e.1@));
            let ghost rem = bytes@.skip(off as int);
            if n - off < 16 {
                proof {
                    assert(rem.len() < 16);
                    assert(dec_entries_u32(rem, (count - i) as nat, dim as nat) is None);
                    assert(dec_entries_u32(all, count as nat, dim as nat) is None);
                }
                return Err(PointExplorerError::SerdeError(error_text()));
            }
            let idv = vstd::bytes::u128_from_le_bytes(
                vstd::slice::slice_subrange(bytes, off, off + 16),
            );
            proof {
                assert(bytes@.subrange(off as int, off as int + 16) =~= rem.take(16));
            }
            let id = PointId { value: idv };
            let mut v: Vec<u32> = Vec::new();
            let mut voff = off + 16;
            let mut j: usize = 0;
            let ghost vstart = bytes@.skip(off as int + 16);
            proof {
                assert(rem.skip(16) =~= vstart);
            }
            while j < dim
                invariant
                    j <= dim,
                    n == bytes@.len(),
                    i < count,
                    16 <= off,
                    off + 16 <= bytes@.len(),
                    dim64 == dim,
                    count == vstd::bytes::spec_u64_from_le_bytes(bytes@.take(8)),
                    dim64 == vstd::bytes::spec_u64_from_le_bytes(bytes@.subrange(8, 16)),
                    all == bytes@.skip(16),
                    dec_entries_u32(all, count as nat, dim as nat) == (match dec_entries_u32(
                        bytes@.skip(off as int),
                        (count - i) as nat,
                        dim as nat,
                    ) {
                        Some(pe) => Some(
                            (
                                entries@.map_values(|e: (PointId, Vec<u32>)| (e.0, e.1@)) + pe.0,
                                pe.1,
                            ),
                        ),
                        None => None,
                    }),
                    off as int + 16 <= voff <= bytes@.len(),
                    voff == off + 16 + 4 * j,
                    v@.len() == j,
                    vstart == bytes@.skip(off as int + 16),
                    dec_vec_u32(vstart, dim as nat) == (match dec_vec_u32(
                        bytes@.skip(voff as int),
                        (dim - j) as nat,
                    ) {
                        Some(pr) => Some((v@ + pr.0, pr.1)),
                        None => None,
                    }),
                decreases dim - j,
            {
                let ghost vrem = bytes@.skip(voff as int);
                if n - voff < 4 {
                    proof {
                        assert(vrem.len() < 4);
                        assert(dec_vec_u32(vrem, (dim - j) as nat) is None);
                        assert(dec_vec_u32(vstart, dim as nat) is None);
                        let rem = bytes@.skip(off as int);
                        assert(rem.len() >= 16);
                        assert(rem.skip(16) =~= vstart);
                        assert(dec_entries_u32(rem, (count - i) as nat, dim as nat) is None);
                        assert(dec_entries_u32(all, count as nat, dim as nat) is None);
                    }
                    return Err(PointExplorerError::SerdeError(error_text()));
                }
                let x = vstd::bytes::u32_from_le_bytes(
                    vstd::slice::slice_subrange(bytes, voff, voff + 4),
                );
                proof {
                    assert(bytes@.subrange(voff as int, voff as int + 4) =~= vrem.take(4));
                    assert(vrem.skip(4) =~= bytes@.skip(voff as int + 4));
                }
                v.push(x);
                proof {
                    match dec_vec_u32(bytes@.skip(voff as int + 4), (dim - j - 1) as nat) {
                        Some(pr) => {
                            assert(v@ + pr.0 =~= v@.drop_last() + (seq![x] + pr.0));
                        },
                        None => {},
                    }
                }
                voff = voff + 4;
                j = j + 1;
            }
            proof {
                assert(dec_vec_u32(bytes@.skip(voff as int), 0) == Some(
                    (Seq::<u32>::empty(), bytes@.skip(voff as int)),
                ));
                assert(v@ + Seq::<u32>::empty() =~= v@);
                assert(dec_vec_u32(vstart, dim as nat) == Some((v@, bytes@.skip(voff as int))));
            }
            entries.push((id, v));
            proof {
                let cur = entries@.map_values(|e: (PointId, Vec<u32>)| (e.0, e.1@));
                match dec_entries_u32(bytes@.skip(voff as int), (count - i - 1) as nat, dim as nat) {
                    Some(pe) => {
                        assert(cur + pe.0 =~= pre + (seq![(id, entries@.last().1@)] + pe.0));
                    },
                    None => {},
                }
            }
            off = voff;
            i = i + 1;
        }
        proof {
            assert(dec_entries_u32(bytes@.skip(off as int), 0, dim as nat) == Some(
                (Seq::<(PointId, Seq<u32>)>::empty(), bytes@.skip(off as int)),
            ));
        }
        if off != n {
            proof {
                let fin = entries@.map_values(|e: (PointId, Vec<u32>)| (e.0, e.1@));
                assert(fin + Seq::<(PointId, Seq<u32>)>::empty() =~= fin);
                assert(bytes@.skip(off as int).len() > 0);
            }
            return Err(PointExplorerError::SerdeError(error_text()));
        }
        proof {
            let fin = entries@.map_values(|e: (PointId, Vec<u32>)| (e.0, e.1@));
            assert(fin + Seq::<(PointId, Seq<u32>)>::empty() =~= fin);
            assert(bytes@.skip(off as int).len() == 0);
            assert(bytes@.take(8) =~= bytes@.subrange(0, 8));
        }
        let mut pe = PointExplorer::<u32>::with_capacity(entries.len(), dim);
        let ghost fin = entries@.map_values(|e: (PointId, Vec<u32>)| (e.0, e.1@));
        let ghost empty_ids = pe.ids();
        let ghost empty_vecs = pe.vectors();
        pe.extend(entries);
        proof {
            assert(empty_ids =~= Seq::<PointId>::empty());
            assert(empty_vecs =~= Seq::<Seq<u32>>::empty());
        }
        Ok(pe)
    }
}

/// The bytes of a vector of byte elements: the elements themselves.
pub open spec fn enc_vec_u8(v: Seq<u8>) -> Seq<u8> {
    v
}

/// The bytes of the stored byte-element points, in order: each identifier
/// as 16 little-endian bytes, then its vector.
pub open spec fn enc_entries_u8(entries: Seq<(PointId, Seq<u8>)>) -> Seq<u8>
    decreases entries.len(),
{
    if entries.len() == 0 {
        Seq::empty()
    } else {
        vstd::bytes::spec_u128_to_le_bytes(entries[0].0.value) + enc_vec_u8(entries[0].1)
            + enc_entries_u8(entries.drop_first())
    }
}

/// The persisted form of a byte-element store.
pub open spec fn encode_store_u8(entries: Seq<(PointId, Seq<u8>)>, dim: u64) -> Seq<u8> {
    vstd::bytes::spec_u64_to_le_bytes(entries.len() as u64) + vstd::bytes::spec_u64_to_le_bytes(
        dim,
    ) + enc_entries_u8(entries)
}

/// Parse `count` byte-element points of dimension `dim`.
pub open spec fn dec_entries_u8(bytes: Seq<u8>, count: nat, dim: nat) -> Option<
    (Seq<(PointId, Seq<u8>)>, Seq<u8>),
>
    decreases count,
{
    if count == 0 {
        Some((Seq::empty(), bytes))
    } else if bytes.len() < 16 + dim {
        None
    } else {
        let id = PointId { value: vstd::bytes::spec_u128_from_le_bytes(bytes.take(16)) };
        let v = bytes.subrange(16, 16 + dim as int);
        match dec_entries_u8(bytes.skip(16 + dim as int), (count - 1) as nat, dim) {
            Some(pe) => Some((seq![(id, v)] + pe.0, pe.1)),
            None => None,
        }
    }
}

/// Parse a whole persisted byte-element store.
pub open spec fn decode_store_u8(bytes: Seq<u8>) -> Option<(Seq<(PointId, Seq<u8>)>, u64)> {
    if bytes.len() < 16 {
        None
    } else {
        let count = vstd::bytes::spec_u64_from_le_bytes(bytes.take(8));
        let dim = vstd::bytes::spec_u64_from_le_bytes(bytes.subrange(8, 16));
        match dec_entries_u8(bytes.skip(16), count as nat, dim as nat) {
            Some(pe) => if pe.1.len() == 0 {
                Some((pe.0, dim))
            } else {
                None
            },
            None => None,
        }
    }
}

/// Appending one byte-element point extends the encoding at its end.
proof fn lemma_enc_entries_u8_push(entries: Seq<(PointId, Seq<u8>)>, id: PointId, v: Seq<u8>)
    ensures
        enc_entries_u8(entries.push((id, v))) == enc_entries_u8(entries)
            + vstd::bytes::spec_u128_to_le_bytes(id.value) + v,
    decreases entries.len(),
{
    if entries.len() == 0 {
        assert((entries.push((id, v)))[0] == (id, v));
        assert(entries.push((id, v)).drop_first() =~= Seq::<(PointId, Seq<u8>)>::empty());
        assert(enc_entries_u8(Seq::<(PointId, Seq<u8>)>::empty()) =~= Seq::<u8>::empty());
        assert(enc_entries_u8(entries) =~= Seq::<u8>::empty());
        assert(enc_entries_u8(entries.push((id, v))) =~= enc_entries_u8(entries)
            + vstd::bytes::spec_u128_to_le_bytes(id.value) + v);
    } else {
        assert(entries.push((id, v)).drop_first() =~= entries.drop_first().push((id, v)));
        lemma_enc_entries_u8_push(entries.drop_first(), id, v);
        assert(enc_entries_u8(entries.push((id, v))) =~= enc_entries_u8(entries)
            + vstd::bytes::spec_u128_to_le_bytes(id.value) + v);
    }
}

/// Decoding inverts encoding, one byte-element point at a time.
proof fn lemma_dec_entries_u8_roundtrip(entries: Seq<(PointId, Seq<u8>)>, rest: Seq<u8>, dim: nat)
    requires
        forall|k: int| 0 <= k < entries.len() ==> (#[trigger] entries[k]).1.len() == dim,
    ensures
        dec_entries_u8(enc_entries_u8(entries) + rest, entries.len(), dim) == Some(
            (entries, rest),
        ),
    decreases entries.len(),
{
    vstd::bytes::lemma_auto_spec_u128_to_from_le_bytes();
    if entries.len() == 0 {
        assert(enc_entries_u8(entries) + rest =~= rest);
    } else {
        let head = vstd::bytes::spec_u128_to_le_bytes(entries[0].0.value);
        let bytes = enc_entries_u8(entries) + rest;
        assert(entries[0].1.len() == dim);
        assert(bytes =~= head + entries[0].1 + (enc_entries_u8(entries.drop_first()) + rest));
        assert(bytes.take(16) =~= head);
        assert(bytes.subrange(16, 16 + dim as int) =~= entries[0].1);
        assert(bytes.skip(16 + dim as int) =~= enc_entries_u8(entries.drop_first()) + rest);
        lemma_dec_entries_u8_roundtrip(entries.drop_first(), rest, dim);
        assert(PointId { value: vstd::bytes::spec_u128_from_le_bytes(head) } == entries[0].0);
        assert(seq![(entries[0].0, entries[0].1)] + entries.drop_first() =~= entries);
    }
}

/// Law: a persisted byte-element store decodes back to exactly the points
/// and dimension it was encoded from.
pub proof fn lemma_store_u8_roundtrip(entries: Seq<(PointId, Seq<u8>)>, dim: u64)
    requires
        entries.len() <= u64::MAX,
        forall|k: int| 0 <= k < entries.len() ==> (#[trigger] entries[k]).1.len() == dim,
    ensures
        decode_store_u8(encode_store_u8(entries, dim)) == Some((entries, dim)),
{
    vstd::bytes::lemma_auto_spec_u64_to_from_le_bytes();
    let cb = vstd::bytes::spec_u64_to_le_bytes(entries.len() as u64);
    let db = vstd::bytes::spec_u64_to_le_bytes(dim);
    let body = enc_entries_u8(entries);
    let bytes = encode_store_u8(entries, dim);
    assert(bytes =~= cb + db + body);
    assert(bytes.len() >= 16);
    assert(bytes.take(8) =~= cb);
    assert(bytes.subrange(8, 16) =~= db);
    assert(bytes.skip(16) =~= body);
    assert(body + Seq::<u8>::empty() =~= body);
    lemma_dec_entries_u8_roundtrip(entries, Seq::empty(), dim as nat);
}

impl PointExplorer<u8> {
    /// The bit-level Hamming distance between the hashes stored under a
    /// pair of identifiers; the first absent identifier of the pair
    /// otherwise.
    pub fn get_hamming(&self, point_id: (&PointId, &PointId)) -> (r: Result<
        u32,
        PointExplorerError,
    >)
        requires
            self.wf(),
            self.dim() <= u32::MAX as nat / 8,
        ensures
            match r {
                Ok(d) => {
                    &&& self.ids().contains(*point_id.0)
                    &&& self.ids().contains(*point_id.1)
                    &&& forall|i: int, j: int|
                        0 <= i < self.ids().len() && 0 <= j < self.ids().len() && self.ids()[i]
                            == *point_id.0 && self.ids()[j] == *point_id.1 ==> d
                            == crate::hamming_spec(self.vectors()[i], self.vectors()[j])
                },
                Err(PointExplorerError::PointNotFound(m)) => (m == *point_id.0 && !self.ids()
                    .contains(*point_id.0)) || (m == *point_id.1 && self.ids().contains(
                    *point_id.0,
                ) && !self.ids().contains(*point_id.1)),
                Err(_) => false,
            },
    {
        let (a, b) = self.get_vector_pair(point_id)?;
        Ok(crate::hamming(a, b))
    }

    /// The stored byte-element points as identifier and vector pairs.
    pub open spec fn entries_view_u8(&self) -> Seq<(PointId, Seq<u8>)> {
        Seq::new(self.ids().len(), |i: int| (self.ids()[i], self.vectors()[i]))
    }

    /// The persisted byte form of this store.
    pub fn to_bytes(&self) -> (r: Vec<u8>)
        requires
            self.wf(),
        ensures
            r@ == encode_store_u8(self.entries_view_u8(), self.dim() as u64),
    {
        let count = self.ids.len();
        let mut out = vstd::bytes::u64_to_le_bytes(count as u64);
        let mut dim_bytes = vstd::bytes::u64_to_le_bytes(self.dim as u64);
        out.append(&mut dim_bytes);
        let ghost header = vstd::bytes::spec_u64_to_le_bytes(count as u64)
            + vstd::bytes::spec_u64_to_le_bytes(self.dim as u64);
        proof {
            assert(out@ =~= header);
            assert(self.entries_view_u8().take(0) =~= Seq::<(PointId, Seq<u8>)>::empty());
            assert(out@ =~= header + enc_entries_u8(self.entries_view_u8().take(0)));
        }
        let mut i: usize = 0;
        while i < count
            invariant
                i <= count,
                count == self.ids().len(),
                self.wf(),
                out@ == header + enc_entries_u8(self.entries_view_u8().take(i as int)),
            decreases count - i,
        {
            let ghost pre_entries = self.entries_view_u8().take(i as int);
            let mut id_bytes = vstd::bytes::u128_to_le_bytes(self.ids[i].value);
            out.append(&mut id_bytes);
            let mut body = vstd::slice::slice_to_vec(self.vectors[i].as_slice());
            out.append(&mut body);
            proof {
                assert(self.entries_view_u8().take(i as int + 1) =~= pre_entries.push(
                    (self.ids()[i as int], self.vectors()[i as int]),
                ));
                lemma_enc_entries_u8_push(
                    pre_entries,
                    self.ids()[i as int],
                    self.vectors()[i as int],
                );
                assert(out@ =~= header + enc_entries_u8(
                    self.entries_view_u8().take(i as int + 1),
                ));
            }
            i = i + 1;
        }
        proof {
            assert(self.entries_view_u8().take(count as int) =~= self.entries_view_u8());
        }
        out
    }

    /// Rebuild a byte-element store from its persisted form; the points are
    /// re-inserted in their stored order. Malformed bytes are refused.
    pub fn from_bytes(bytes: &[u8]) -> (r: Result<PointExplorer<u8>, PointExplorerError>)
        ensures
            match r {
                Ok(pe) => {
                    &&& decode_store_u8(bytes@) matches Some(d) && pe.dim() == d.1 && d.1
                        <= usize::MAX && (pe.ids(), pe.vectors()) == extend_model(
                        Seq::empty(),
                        Seq::empty(),
                        d.0,
                    )
                    &&& pe.wf()
                },
                Err(PointExplorerError::SerdeError(_)) => decode_store_u8(bytes@) is None || (
                decode_store_u8(bytes@) matches Some(d) && d.1 > usize::MAX),
                Err(_) => false,
            },
    {
        let n = bytes.len();
        if n < 16 {
            return Err(PointExplorerError::SerdeError(error_text()));
        }
        let count = vstd::bytes::u64_from_le_bytes(vstd::slice::slice_subrange(bytes, 0, 8));
        let dim64 = vstd::bytes::u64_from_le_bytes(vstd::slice::slice_subrange(bytes, 8, 16));
        if dim64 > usize::MAX as u64 {
            proof {
                assert(bytes@.take(8) =~= bytes@.subrange(0, 8));
            }
            return Err(PointExplorerError::SerdeError(error_text()));
        }
        let dim = dim64 as usize;
        let ghost all = bytes@.skip(16);
        let mut entries: Vec<(PointId, Vec<u8>)> = Vec::new();
        let mut off: usize = 16;
        let mut i: u64 = 0;
        proof {
            assert(bytes@.skip(off as int) =~= all);
        }
        while i < count
            invariant
                i <= count,
                16 <= off <= bytes@.len(),
                n == bytes@.len(),
                dim64 == dim,
                count == vstd::bytes::spec_u64_from_le_bytes(bytes@.take(8)),
                dim64 == vstd::bytes::spec_u64_from_le_bytes(bytes@.subrange(8, 16)),
                all == bytes@.skip(16),
                entries@.len() == i,
                forall|k: int| 0 <= k < entries@.len() ==> (#[trigger] entries@[k]).1@.len() == dim,
                dec_entries_u8(all, count as nat, dim as nat) == (match dec_entries_u8(
                    bytes@.skip(off as int),
                    (count - i) as nat,
                    dim as nat,
                ) {
                    Some(pe) => Some(
                        (
                            entries@.map_values(|e: (PointId, Vec<u8>)| (e.0, e.1@)) + pe.0,
                            pe.1,
                        ),
                    ),
                    None => None,
                }),
            decreases count - i,
        {
            let ghost pre = entries@.map_values(|e: (PointId, Vec<u8>)| (e.0, e.1@));
            let ghost rem = bytes@.skip(off as int);
            if n - off < 16 || n - off - 16 < dim {
                proof {
                    assert(rem.len() < 16 + dim);
                    assert(dec_entries_u8(rem, (count - i) as nat, dim as nat) is None);
                    assert(dec_entries_u8(all, count as nat, dim as nat) is None);
                }
                return Err(PointExplorerError::SerdeError(error_text()));
            }
            let idv = vstd::bytes::u128_from_le_bytes(
                vstd::slice::slice_subrange(bytes, off, off + 16),
            );
            proof {
                assert(bytes@.subrange(off as int, off as int + 16) =~= rem.take(16));
            }
            let id = PointId { value: idv };
            let v = vstd::slice::slice_to_vec(
                vstd::slice::slice_subrange(bytes, off + 16, off + 16 + dim),
            );
            proof {
                assert(bytes@.subrange(off as int + 16, off as int + 16 + dim as int)
                    =~= rem.subrange(16, 16 + dim as int));
                assert(rem.skip(16 + dim as int) =~= bytes@.skip(off as int + 16 + dim as int));
            }
            entries.push((id, v));
            proof {
                let cur = entries@.map_values(|e: (PointId, Vec<u8>)| (e.0, e.1@));
                match dec_entries_u8(
                    bytes@.skip(off as int + 16 + dim as int),
                    (count - i - 1) as nat,
                    dim as nat,
                ) {
                    Some(pe) => {
                        assert(cur + pe.0 =~= pre + (seq![(id, entries@.last().1@)] + pe.0));
                    },
                    None => {},
                }
            }
            off = off + 16 + dim;
            i = i + 1;
        }
        proof {
            assert(dec_entries_u8(bytes@.skip(off as int), 0, dim as nat) == Some(
                (Seq::<(PointId, Seq<u8>)>::empty(), bytes@.skip(off as int)),
            ));
        }
        if off != n {
            proof {
                let fin = entries@.map_values(|e: (PointId, Vec<u8>)| (e.0, e.1@));
                assert(fin + Seq::<(PointId, Seq<u8>)>::empty() =~= fin);
                assert(bytes@.skip(off as int).len() > 0);
            }
            return Err(PointExplorerError::SerdeError(error_text()));
        }
        proof {
            let fin = entries@.map_values(|e: (PointId, Vec<u8>)| (e.0, e.1@));
            assert(fin + Seq::<(PointId, Seq<u8>)>::empty() =~= fin);
            assert(bytes@.skip(off as int).len() == 0);
            assert(bytes@.take(8) =~= bytes@.subrange(0, 8));
        }
        let mut pe = PointExplorer::<u8>::with_capacity(entries.len(), dim);
        let ghost fin = entries@.map_values(|e: (PointId, Vec<u8>)| (e.0, e.1@));
        let ghost empty_ids = pe.ids();
        let ghost empty_vecs = pe.vectors();
        pe.extend(entries);
        proof {
            assert(empty_ids =~= Seq::<PointId>::empty());
            assert(empty_vecs =~= Seq::<Seq<u8>>::empty());
        }
        Ok(pe)
    }
}

/// What recording a named prefix leaves behind: with the name absent the
/// pair is appended, with the name present the first entry under it is
/// replaced.
pub open spec fn prefix_upsert_ok(
    old_es: Seq<(String, String)>,
    key: String,
    prefix: String,
    es: Seq<(String, String)>,
) -> bool {
    &&& ((forall|j: int| 0 <= j < old_es.len() ==> (#[trigger] old_es[j]).0@ != key@) ==> es
        == old_es.push((key, prefix)))
    &&& (forall|j: int|
        0 <= j < old_es.len() && (#[trigger] old_es[j]).0@ == key@ && (forall|t: int|
            0 <= t < j ==> (#[trigger] old_es[t]).0@ != key@) ==> es == old_es.update(
            j,
            (key, prefix),
        ))
}

/// Builder of a vector store: it records a capacity, the file paths the
/// caller's I/O layer loads from, and named URI prefixes.
#[derive(Debug, Clone)]
pub struct PointExplorerBuilder {
    capacity: Option<usize>,
    point_explorer_path: Option<String>,
    metadata_path: Option<String>,
    metadata_ext_path: Option<String>,
    point_uri_prefix_map: Option<Vec<(String, String)>>,
}

impl PointExplorerBuilder {
    /// The recorded capacity.
    pub closed spec fn spec_capacity(&self) -> Option<usize> {
        self.capacity
    }

    /// The recorded store path.
    pub closed spec fn spec_path(&self) -> Option<String> {
        self.point_explorer_path
    }

    /// The recorded metadata path.
    pub closed spec fn spec_metadata_path(&self) -> Option<String> {
        self.metadata_path
    }

    /// The recorded object-store table path.
    pub closed spec fn spec_metadata_ext_path(&self) -> Option<String> {
        self.metadata_ext_path
    }

    /// The recorded URI prefixes, by name.
    pub closed spec fn spec_prefixes(&self) -> Option<Seq<(String, String)>> {
        match self.point_uri_prefix_map {
            Some(v) => Some(v@),
            None => None,
        }
    }

    /// An empty builder.
    pub fn new() -> (r: PointExplorerBuilder)
        ensures
            r.spec_capacity() is None,
            r.spec_path() is None,
            r.spec_metadata_path() is None,
            r.spec_metadata_ext_path() is None,
            r.spec_prefixes() is None,
    {
        PointExplorerBuilder {
            capacity: None,
            point_explorer_path: None,
            metadata_path: None,
            metadata_ext_path: None,
            point_uri_prefix_map: None,
        }
    }

    /// Record the capacity.
    pub fn capacity(self, capacity: usize) -> (r: PointExplorerBuilder)
        ensures
            r.spec_capacity() == Some(capacity),
            r.spec_path() == self.spec_path(),
            r.spec_metadata_path() == self.spec_metadata_path(),
            r.spec_metadata_ext_path() == self.spec_metadata_ext_path(),
            r.spec_prefixes() == self.spec_prefixes(),
    {
        PointExplorerBuilder { capacity: Some(capacity), ..self }
    }

    /// Record the path the store is loaded from.
    pub fn path(self, path: String) -> (r: PointExplorerBuilder)
        ensures
            r.spec_path() == Some(path),
            r.spec_capacity() == self.spec_capacity(),
            r.spec_metadata_path() == self.spec_metadata_path(),
            r.spec_metadata_ext_path() == self.spec_metadata_ext_path(),
            r.spec_prefixes() == self.spec_prefixes(),
    {
        PointExplorerBuilder { point_explorer_path: Some(path), ..self }
    }

    /// Record the path the metadata table is loaded from.
    pub fn metadata_path(self, path: String) -> (r: PointExplorerBuilder)
        ensures
            r.spec_metadata_path() == Some(path),
            r.spec_capacity() == self.spec_capacity(),
            r.spec_path() == self.spec_path(),
            r.spec_metadata_ext_path() == self.spec_metadata_ext_path(),
            r.spec_prefixes() == self.spec_prefixes(),
    {
        PointExplorerBuilder { metadata_path: Some(path), ..self }
    }

    /// Record the path the object-store table is loaded from.
    pub fn metadata_ext_path(self, path: String) -> (r: PointExplorerBuilder)
        ensures
            r.spec_metadata_ext_path() == Some(path),
            r.spec_capacity() == self.spec_capacity(),
            r.spec_path() == self.spec_path(),
            r.spec_metadata_path() == self.spec_metadata_path(),
            r.spec_prefixes() == self.spec_prefixes(),
    {
        PointExplorerBuilder { metadata_ext_path: Some(path), ..self }
    }

    /// Record one named URI prefix: a prefix already recorded under the name
    /// is replaced, a new name is appended.
    pub fn point_url_prefix(self, key: String, prefix: String) -> (r: PointExplorerBuilder)
        ensures
            r.spec_capacity() == self.spec_capacity(),
            r.spec_path() == self.spec_path(),
            r.spec_metadata_path() == self.spec_metadata_path(),
            r.spec_metadata_ext_path() == self.spec_metadata_ext_path(),
            match r.spec_prefixes() {
                Some(es) => prefix_upsert_ok(
                    match self.spec_prefixes() {
                        Some(old_es) => old_es,
                        None => Seq::empty(),
                    },
                    key,
                    prefix,
                    es,
                ),
                None => false,
            },
    {
        let ghost old_prefixes = self.spec_prefixes();
        let PointExplorerBuilder {
            capacity,
            point_explorer_path,
            metadata_path,
            metadata_ext_path,
            point_uri_prefix_map,
        } = self;
        let mut entries = match point_uri_prefix_map {
            Some(v) => v,
            None => Vec::new(),
        };
        let ghost old_es = entries@;
        proof {
            match old_prefixes {
                Some(es) => {
                    assert(old_es == es);
                },
                None => {
                    assert(old_es =~= Seq::<(String, String)>::empty());
                },
            }
        }
        let mut i: usize = 0;
        while i < entries.len()
            invariant
                i <= entries@.len(),
                entries@ == old_es,
                capacity == self.spec_capacity(),
                point_explorer_path == self.spec_path(),
                metadata_path == self.spec_metadata_path(),
                metadata_ext_path == self.spec_metadata_ext_path(),
                old_prefixes == self.spec_prefixes(),
                old_es == (match old_prefixes {
                    Some(es) => es,
                    None => Seq::<(String, String)>::empty(),
                }),
                forall|t: int| 0 <= t < i ==> (#[trigger] old_es[t]).0@ != key@,
            decreases entries@.len() - i,
        {
            if str_eq(entries[i].0.as_str(), key.as_str()) {
                let ghost pv = (key, prefix);
                entries.set(i, (key, prefix));
                proof {
                    assert(entries@ == old_es.update(i as int, pv));
                    assert forall|j: int|
                        0 <= j < old_es.len() && (#[trigger] old_es[j]).0@ == pv.0@ && (forall|
                            t: int,
                        | 0 <= t < j ==> (#[trigger] old_es[t]).0@ != pv.0@) implies entries@
                        == old_es.update(j, pv) by {
                        if j < i as int {
                            assert(old_es[j].0@ != pv.0@);
                        }
                        if j > i as int {
                            assert(old_es[i as int].0@ != pv.0@);
                        }
                        assert(j == i as int);
                    }
                    assert(prefix_upsert_ok(old_es, pv.0, pv.1, entries@));
                }
                return PointExplorerBuilder {
                    capacity,
                    point_explorer_path,
                    metadata_path,
                    metadata_ext_path,
                    point_uri_prefix_map: Some(entries),
                };
            }
            i = i + 1;
        }
        entries.push((key, prefix));
        PointExplorerBuilder {
            capacity,
            point_explorer_path,
            metadata_path,
            metadata_ext_path,
            point_uri_prefix_map: Some(entries),
        }
    }

    /// The recorded store path, for the caller's I/O layer.
    pub fn stored_path(&self) -> (r: &Option<String>)
        ensures
            *r == self.spec_path(),
    {
        &self.point_explorer_path
    }

    /// The recorded metadata path, for the caller's I/O layer.
    pub fn stored_metadata_path(&self) -> (r: &Option<String>)
        ensures
            *r == self.spec_metadata_path(),
    {
        &self.metadata_path
    }

    /// The recorded object-store table path, for the caller's I/O layer.
    pub fn stored_metadata_ext_path(&self) -> (r: &Option<String>)
        ensures
            *r == self.spec_metadata_ext_path(),
    {
        &self.metadata_ext_path
    }

    /// The recorded raw URI prefixes.
    pub fn stored_prefixes(&self) -> (r: &Option<Vec<(String, String)>>)
        ensures
            match r {
                Some(v) => self.spec_prefixes() == Some(v@),
                None => self.spec_prefixes() is None,
            },
    {
        &self.point_uri_prefix_map
    }

    /// Build an empty store of the given dimension with the recorded
    /// capacity, the recorded URI prefixes parsed; what the recorded paths
    /// name is loaded by the caller's I/O layer afterwards.
    pub fn build<T>(self, dim: usize) -> (r: PointExplorer<T>)
        ensures
            r.wf(),
            r.ids().len() == 0,
            r.dim() == dim,
            r.metadata() is None,
            r.metadata_ext() is None,
            match self.spec_prefixes() {
                None => r.uri_prefixes() is None,
                Some(pairs) => match r.uri_prefixes() {
                    Some(es) => es.len() == pairs.len() && forall|j: int|
                        0 <= j < pairs.len() ==> (#[trigger] es[j]).0@ == pairs[j].0@ && (
                        match url_parse_of(pairs[j].1@) {
                            Some(u) => es[j].1 matches PointUri::Url(x) && x@ == u,
                            None => es[j].1 matches PointUri::Path(x) && x@ == pairs[j].1@,
                        }),
                    None => false,
                },
            },
    {
        let cap = match self.capacity {
            Some(c) => c,
            None => 0,
        };
        let mut pe = PointExplorer::<T>::with_capacity(cap, dim);
        match self.point_uri_prefix_map {
            Some(pairs) => {
                pe.load_points_uri_prefix(pairs);
            },
            None => {},
        }
        pe
    }
}

/// The message carried by a malformed-data error.
fn error_text() -> String {
    String::from_str("malformed point store bytes")
}

/// Removing one position of a distinct sequence keeps it distinct.
proof fn lemma_distinct_remove(ids: Seq<PointId>, at: int)
    requires
        0 <= at < ids.len(),
        forall|i: int, j: int| 0 <= i < j < ids.len() ==> ids[i] != ids[j],
    ensures
        forall|i: int, j: int|
            0 <= i < j < ids.remove(at).len() ==> ids.remove(at)[i] != ids.remove(at)[j],
{
    let r = ids.remove(at);
    assert forall|i: int, j: int| 0 <= i < j < r.len() implies r[i] != r[j] by {
        let oi = if i < at {
            i
        } else {
            i + 1
        };
        let oj = if j < at {
            j
        } else {
            j + 1
        };
        assert(r[i] == ids[oi]);
        assert(r[j] == ids[oj]);
    }
}

} // verus!
