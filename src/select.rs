//! Choosing the document that a later import is about: the collections of a
//! library, the path of each collection, and the resulting selection.

use std::collections::BTreeMap;
use vstd::prelude::*;

use crate::global::API_VERSION;
use crate::source::Author;

verus! {

broadcast use {vstd::laws_cmp::group_laws_cmp, vstd::std_specs::btree::group_btree_axioms};

/// A collection of documents, with its sub-collections.
#[derive(Debug)]
pub struct Collection {
    pub id: i64,
    pub name: String,
    pub document_ids: Vec<i64>,
    pub collections: Vec<Collection>,
}

/// A document of a library.
#[derive(Debug, Clone)]
pub struct Document {
    pub id: i64,
    pub title: String,
    pub authors: Vec<Author>,
    pub collection_ids: Vec<i64>,
    pub date_added: String,
    pub date_modified: String,
}

/// A reference library.
#[derive(Debug)]
pub struct Library {
    pub id: i64,
    pub name: String,
    pub documents: Vec<Document>,
    pub collections: Vec<Collection>,
}

/// The libraries of a user.
#[derive(Debug)]
pub struct User {
    pub libraries: Vec<Library>,
}

/// Whether `segment` may name one directory: only ASCII letters and digits.
pub open spec fn is_segment(segment: Seq<char>) -> bool {
    forall|i: int|
        0 <= i < segment.len() ==> {
            let c = #[trigger] segment[i];
            ('a' <= c && c <= 'z') || ('A' <= c && c <= 'Z') || ('0' <= c && c <= '9')
        }
}

/// Checks that a string names a single path segment. Extremely restrictive
/// to be safe: only ASCII letters and digits are allowed.
pub fn is_path_segment(segment: &str) -> (b: bool)
    ensures
        b == is_segment(segment@),
{
    let n = segment.unicode_len();
    let mut i: usize = 0;
    while i < n
        invariant
            n == segment@.len(),
            i <= n,
            forall|k: int| 0 <= k < i ==> {
                let c = #[trigger] segment@[k];
                ('a' <= c && c <= 'z') || ('A' <= c && c <= 'Z') || ('0' <= c && c <= '9')
            },
        decreases n - i,
    {
        let c = segment.get_char(i);
        if !(('a' <= c && c <= 'z') || ('A' <= c && c <= 'Z') || ('0' <= c && c <= '9')) {
            return false;
        }
        i = i + 1;
    }
    true
}

/// The collections of `cs` and all their descendants in pre-order, each as
/// its id, the id of its parent (`parent` for those of `cs` itself), and the
/// collection.
pub open spec fn flat(parent: Option<i64>, cs: Seq<Collection>) -> Seq<(i64, Option<i64>, Collection)>
    decreases cs,
{
    if cs.len() == 0 {
        seq![]
    } else {
        let c = cs[0];
        seq![(c.id, parent, c)] + flat(Some(c.id), c.collections@) + flat(parent, cs.drop_first())
    }
}

/// The ids of `flat(parent, cs)`, in order.
pub open spec fn flat_ids(parent: Option<i64>, cs: Seq<Collection>) -> Seq<i64> {
    flat(parent, cs).map_values(|e: (i64, Option<i64>, Collection)| e.0)
}

proof fn lemma_flat_concat(parent: Option<i64>, a: Seq<Collection>, b: Seq<Collection>)
    ensures
        flat(parent, a + b) == flat(parent, a) + flat(parent, b),
    decreases a.len(),
{
    if a.len() == 0 {
        assert(a + b =~= b);
        assert(flat(parent, a) + flat(parent, b) =~= flat(parent, b));
    } else {
        assert((a + b)[0] == a[0]);
        assert((a + b).drop_first() =~= a.drop_first() + b);
        lemma_flat_concat(parent, a.drop_first(), b);
        let c = a[0];
        assert(flat(parent, a + b) =~= seq![(c.id, parent, c)] + flat(Some(c.id), c.collections@) + (flat(
            parent,
            a.drop_first(),
        ) + flat(parent, b)));
        assert(flat(parent, a) + flat(parent, b) =~= seq![(c.id, parent, c)] + flat(Some(c.id), c.collections@)
            + flat(parent, a.drop_first()) + flat(parent, b));
    }
}

proof fn lemma_flat_one(parent: Option<i64>, c: Collection)
    ensures
        flat(parent, seq![c]) == seq![(c.id, parent, c)] + flat(Some(c.id), c.collections@),
{
    assert(seq![c].drop_first() =~= Seq::<Collection>::empty());
    assert(flat(parent, seq![c].drop_first()) =~= Seq::<(i64, Option<i64>, Collection)>::empty());
    assert(seq![c][0] == c);
    assert(seq![(c.id, parent, c)] + flat(Some(c.id), c.collections@) + Seq::<(i64, Option<i64>, Collection)>::empty()
        =~= seq![(c.id, parent, c)] + flat(Some(c.id), c.collections@));
}

proof fn lemma_flat_step(parent: Option<i64>, cs: Seq<Collection>, i: int)
    requires
        0 <= i < cs.len(),
    ensures
        flat(parent, cs.take(i + 1)) == flat(parent, cs.take(i)) + seq![(cs[i].id, parent, cs[i])] + flat(
            Some(cs[i].id),
            cs[i].collections@,
        ),
        flat_ids(parent, cs.take(i + 1)) == flat_ids(parent, cs.take(i)) + seq![cs[i].id] + flat_ids(
            Some(cs[i].id),
            cs[i].collections@,
        ),
        flat_ids(parent, cs) == flat_ids(parent, cs.take(i)) + seq![cs[i].id] + flat_ids(
            Some(cs[i].id),
            cs[i].collections@,
        ) + flat_ids(parent, cs.skip(i + 1)),
{
    assert(cs.take(i + 1) =~= cs.take(i) + seq![cs[i]]);
    lemma_flat_concat(parent, cs.take(i), seq![cs[i]]);
    lemma_flat_one(parent, cs[i]);
    assert(cs =~= cs.take(i + 1) + cs.skip(i + 1));
    lemma_flat_concat(parent, cs.take(i + 1), cs.skip(i + 1));
    let f = |e: (i64, Option<i64>, Collection)| e.0;
    assert(flat_ids(parent, cs.take(i + 1)) =~= flat_ids(parent, cs.take(i)) + seq![cs[i].id] + flat_ids(
        Some(cs[i].id),
        cs[i].collections@,
    ));
    assert(flat_ids(parent, cs) =~= flat_ids(parent, cs.take(i + 1)) + flat_ids(parent, cs.skip(i + 1)));
}

proof fn lemma_contains_concat3(a: Seq<i64>, x: i64, b: Seq<i64>, y: i64)
    ensures
        (a + seq![x] + b).contains(y) <==> (a.contains(y) || y == x || b.contains(y)),
{
    let s = a + seq![x] + b;
    if s.contains(y) {
        let k = choose|k: int| 0 <= k < s.len() && s[k] == y;
        if k < a.len() {
            assert(a[k] == y);
        } else if k > a.len() {
            assert(b[k - a.len() - 1] == y);
        }
    }
    if a.contains(y) {
        let k = choose|k: int| 0 <= k < a.len() && a[k] == y;
        assert(s[k] == y);
    }
    if y == x {
        assert(s[a.len() as int] == y);
    }
    if b.contains(y) {
        let k = choose|k: int| 0 <= k < b.len() && b[k] == y;
        assert(s[a.len() + 1 + k] == y);
    }
}

proof fn lemma_repeat_not_fresh<V>(start: Map<i64, V>, seen: Seq<i64>, id: i64, kids: Seq<i64>, rest: Seq<i64>)
    requires
        start.contains_key(id) || seen.contains(id),
    ensures
        !fresh_ids(start, seen + seq![id] + kids + rest),
{
    let all = seen + seq![id] + kids + rest;
    let n = seen.len() as int;
    assert(all[n] == id);
    if !start.contains_key(id) {
        let j = choose|j: int| 0 <= j < seen.len() && seen[j] == id;
        assert(all[j] == id);
    }
}

proof fn lemma_child_not_fresh<V>(
    start: Map<i64, V>,
    seen: Seq<i64>,
    id: i64,
    kids: Seq<i64>,
    rest: Seq<i64>,
    middle: Map<i64, V>,
)
    requires
        !fresh_ids(middle, kids),
        forall|x: i64| #[trigger] middle.contains_key(x) <==> (start.contains_key(x) || seen.contains(x) || x == id),
    ensures
        !fresh_ids(start, seen + seq![id] + kids + rest),
{
    let all = seen + seq![id] + kids + rest;
    let n = seen.len() as int;
    assert(all[n] == id);
    if kids.no_duplicates() {
        let k = choose|k: int| 0 <= k < kids.len() && middle.contains_key(#[trigger] kids[k]);
        let x = kids[k];
        assert(all[n + 1 + k] == x);
        if !start.contains_key(x) && x != id {
            let j = choose|j: int| 0 <= j < seen.len() && seen[j] == x;
            assert(all[j] == x);
        }
    } else {
        let (a, b) = choose|a: int, b: int|
            0 <= a < kids.len() && 0 <= b < kids.len() && a != b && kids[a] == kids[b];
        assert(all[n + 1 + a] == all[n + 1 + b]);
    }
}

proof fn lemma_extend_fresh<V>(start: Map<i64, V>, seen: Seq<i64>, id: i64, kids: Seq<i64>, middle: Map<i64, V>)
    requires
        fresh_ids(start, seen),
        !start.contains_key(id),
        !seen.contains(id),
        fresh_ids(middle, kids),
        forall|x: i64| #[trigger] middle.contains_key(x) <==> (start.contains_key(x) || seen.contains(x) || x == id),
    ensures
        fresh_ids(start, seen + seq![id] + kids),
{
    let all = seen + seq![id] + kids;
    let n = seen.len() as int;
    assert forall|a: int, b: int| 0 <= a < all.len() && 0 <= b < all.len() && a != b implies all[a] != all[b] by {
        if a < n && b < n {
        } else if a < n && b == n {
            assert(seen.contains(all[a]));
        } else if a == n && b < n {
            assert(seen.contains(all[b]));
        } else if a < n && b > n {
            assert(all[b] == kids[b - n - 1]);
            assert(seen.contains(all[a]));
            assert(middle.contains_key(all[a]));
        } else if a > n && b < n {
            assert(all[a] == kids[a - n - 1]);
            assert(seen.contains(all[b]));
            assert(middle.contains_key(all[b]));
        } else if a == n && b > n {
            assert(all[b] == kids[b - n - 1]);
            assert(middle.contains_key(id));
        } else if a > n && b == n {
            assert(all[a] == kids[a - n - 1]);
            assert(middle.contains_key(id));
        } else {
            assert(all[a] == kids[a - n - 1]);
            assert(all[b] == kids[b - n - 1]);
        }
    }
    assert forall|k: int| 0 <= k < all.len() implies !start.contains_key(#[trigger] all[k]) by {
        if k > n {
            assert(all[k] == kids[k - n - 1]);
            if start.contains_key(all[k]) {
                assert(middle.contains_key(all[k]));
            }
        }
    }
}

/// No id of `ids` repeats, and none is a key of `m`.
pub open spec fn fresh_ids<V>(m: Map<i64, V>, ids: Seq<i64>) -> bool {
    &&& ids.no_duplicates()
    &&& forall|k: int| 0 <= k < ids.len() ==> !m.contains_key(#[trigger] ids[k])
}

/// A collection as the cache holds it.
#[derive(Debug, Clone, Copy)]
pub struct CollectionCacheEntry<'a> {
    pub id: i64,
    pub parent: Option<i64>,
    pub collection: &'a Collection,
}

/// Why a library's collections cannot be indexed.
#[derive(Debug, Clone, Copy, PartialEq, Eq, Structural)]
pub enum LibraryIndexFormatError {
    DuplicateIds,
}

/// The collections of a library by id, with their parents.
pub struct LibraryCache<'a> {
    collection_map: BTreeMap<i64, CollectionCacheEntry<'a>>,
    depth: Ghost<Map<i64, nat>>,
}

impl<'a> LibraryCache<'a> {
    /// The cached collections by id.
    pub closed spec fn entries(&self) -> Map<i64, CollectionCacheEntry<'a>> {
        self.collection_map@
    }

    /// Every entry is filed under its own id, and its parent is cached too,
    /// nearer the root.
    pub closed spec fn wf(&self) -> bool {
        forall|id: i64|
            #![trigger self.collection_map@.contains_key(id)]
            self.collection_map@.contains_key(id) ==> {
                let e = self.collection_map@[id];
                &&& self.depth@.contains_key(id)
                &&& e.id == id
                &&& match e.parent {
                    Some(p) => self.collection_map@.contains_key(p) && self.depth@[p] < self.depth@[id],
                    None => true,
                }
            }
    }

    /// How far the cached collection `id` lies from the root.
    pub closed spec fn rank(&self, id: i64) -> nat {
        self.depth@[id]
    }

    /// The ids from the root down to the cached collection `id`.
    pub closed spec fn path_ids(&self, id: i64) -> Seq<i64>
        decreases self.rank(id),
    {
        if self.wf() && self.collection_map@.contains_key(id) {
            match self.collection_map@[id].parent {
                Some(p) => if self.depth@[p] < self.depth@[id] {
                    self.path_ids(p).push(id)
                } else {
                    seq![id]
                },
                None => seq![id],
            }
        } else {
            seq![id]
        }
    }

    /// Indexes the collections of `library`; fails when two of them share an id.
    pub fn new(library: &'a Library) -> (r: Result<LibraryCache<'a>, LibraryIndexFormatError>)
        ensures
            r is Ok <==> flat_ids(None, library.collections@).no_duplicates(),
            r is Ok ==> r->Ok_0.wf(),
            r is Ok ==> forall|k: int|
                0 <= k < flat(None, library.collections@).len() ==> {
                    let e = #[trigger] flat(None, library.collections@)[k];
                    &&& r->Ok_0.entries().contains_key(e.0)
                    &&& r->Ok_0.entries()[e.0].id == e.0
                    &&& r->Ok_0.entries()[e.0].parent == e.1
                    &&& *r->Ok_0.entries()[e.0].collection == e.2
                },
            r is Ok ==> forall|id: i64|
                #[trigger] r->Ok_0.entries().contains_key(id) ==> flat_ids(None, library.collections@).contains(id),
    {
        let mut out = LibraryCache { collection_map: BTreeMap::new(), depth: Ghost(Map::empty()) };
        match out.extend_collections(None, &library.collections) {
            Ok(()) => {
                proof {
                    let f = flat(None, library.collections@);
                    assert forall|k: int| 0 <= k < f.len() implies {
                        let e = #[trigger] f[k];
                        &&& out.entries().contains_key(e.0)
                        &&& out.entries()[e.0].id == e.0
                        &&& out.entries()[e.0].parent == e.1
                        &&& *out.entries()[e.0].collection == e.2
                    } by {
                        assert(flat_ids(None, library.collections@)[k] == f[k].0);
                        assert(flat_ids(None, library.collections@).contains(f[k].0));
                    }
                }
                Ok(out)
            },
            Err(e) => Err(e),
        }
    }

    fn extend_collections(&mut self, parent: Option<i64>, collections: &'a Vec<Collection>) -> (r: Result<
        (),
        LibraryIndexFormatError,
    >)
        requires
            old(self).wf(),
            parent matches Some(p) ==> old(self).collection_map@.contains_key(p),
        ensures
            r is Ok <==> fresh_ids(old(self).collection_map@, flat_ids(parent, collections@)),
            r is Ok ==> {
                &&& final(self).wf()
                &&& forall|id: i64|
                    #![trigger final(self).collection_map@.contains_key(id)]
                    final(self).collection_map@.contains_key(id) <==> (old(self).collection_map@.contains_key(id)
                        || flat_ids(parent, collections@).contains(id))
                &&& forall|id: i64|
                    #![trigger old(self).collection_map@.contains_key(id)]
                    old(self).collection_map@.contains_key(id) ==> final(self).collection_map@[id]
                        == old(self).collection_map@[id]
                &&& forall|k: int|
                    0 <= k < flat(parent, collections@).len() ==> {
                        let e = #[trigger] flat(parent, collections@)[k];
                        &&& final(self).collection_map@[e.0].parent == e.1
                        &&& *final(self).collection_map@[e.0].collection == e.2
                    }
            },
        decreases collections,
    {
        let ghost start = self.collection_map@;
        let ghost cs = collections@;
        let ghost mut seen: Seq<i64> = seq![];
        let mut i: usize = 0;
        proof {
            assert(cs.take(0) =~= Seq::<Collection>::empty());
            assert(flat_ids(parent, cs.take(0)) =~= Seq::<i64>::empty());
        }
        while i < collections.len()
            invariant
                cs == collections@,
                start == old(self).collection_map@,
                i <= cs.len(),
                self.wf(),
                parent matches Some(p) ==> self.collection_map@.contains_key(p),
                seen == flat_ids(parent, cs.take(i as int)),
                fresh_ids(start, seen),
                forall|id: i64|
                    #![trigger self.collection_map@.contains_key(id)]
                    self.collection_map@.contains_key(id) <==> (start.contains_key(id) || seen.contains(id)),
                forall|id: i64|
                    #![trigger start.contains_key(id)]
                    start.contains_key(id) ==> self.collection_map@[id] == start[id],
                forall|k: int|
                    0 <= k < flat(parent, cs.take(i as int)).len() ==> {
                        let e = #[trigger] flat(parent, cs.take(i as int))[k];
                        &&& self.collection_map@[e.0].parent == e.1
                        &&& *self.collection_map@[e.0].collection == e.2
                    },
            decreases cs.len() - i,
        {
            let collection: &'a Collection = &collections[i];
            let id = collection.id;
            let ghost kids = flat_ids(Some(id), collection.collections@);
            proof {
                lemma_flat_step(parent, cs, i as int);
            }
            if self.collection_map.contains_key(&id) {
                proof {
                    lemma_repeat_not_fresh(start, seen, id, kids, flat_ids(parent, cs.skip(i + 1)));
                }
                return Err(LibraryIndexFormatError::DuplicateIds);
            }
            let ghost before = self.collection_map@;
            self.collection_map.insert(id, CollectionCacheEntry { id, parent, collection });
            proof {
                let d: nat = match parent {
                    Some(p) => self.depth@[p] + 1,
                    None => 0,
                };
                self.depth@ = self.depth@.insert(id, d);
            }
            let ghost middle = self.collection_map@;
            let inner = self.extend_collections(Some(id), &collection.collections);
            match inner {
                Ok(()) => {},
                Err(e) => {
                    proof {
                        lemma_child_not_fresh(start, seen, id, kids, flat_ids(parent, cs.skip(i + 1)), middle);
                    }
                    return Err(e);
                },
            }
            proof {
                lemma_extend_fresh(start, seen, id, kids, middle);
                let done = flat(parent, cs.take(i as int));
                let grown = flat(parent, cs.take(i + 1));
                let sub = flat(Some(id), collection.collections@);
                assert forall|k: int| 0 <= k < grown.len() implies {
                    let e = #[trigger] grown[k];
                    &&& self.collection_map@[e.0].parent == e.1
                    &&& *self.collection_map@[e.0].collection == e.2
                } by {
                    if k < done.len() {
                        assert(grown[k] == done[k]);
                        assert(seen[k] == done[k].0);
                        assert(seen.contains(done[k].0));
                        assert(before.contains_key(done[k].0));
                        assert(middle.contains_key(done[k].0));
                    } else if k == done.len() {
                        assert(grown[k] == (id, parent, *collection));
                        assert(middle.contains_key(id));
                    } else {
                        assert(grown[k] == sub[k - done.len() - 1]);
                    }
                }
                assert forall|x: i64| #![trigger start.contains_key(x)] start.contains_key(x) implies self.collection_map@[x]
                    == start[x] by {
                    assert(before.contains_key(x));
                    assert(middle.contains_key(x));
                }
                seen = seen + seq![id] + kids;
                assert forall|x: i64| #![trigger self.collection_map@.contains_key(x)]
                    self.collection_map@.contains_key(x) <==> (start.contains_key(x) || seen.contains(x)) by {
                    lemma_contains_concat3(seen.subrange(0, seen.len() - kids.len() - 1), id, kids, x);
                    assert(seen.subrange(0, seen.len() - kids.len() - 1) =~= flat_ids(parent, cs.take(i as int)));
                    assert(middle.contains_key(x) <==> (before.contains_key(x) || x == id));
                }
            }
            i = i + 1;
        }
        proof {
            assert(cs.take(i as int) =~= cs);
        }
        Ok(())
    }

    /// The cached collection `id`, bound to this cache, if any.
    pub fn get_collection(&'a self, id: i64) -> (r: Option<BoundCollectionCacheEntry<'a>>)
        requires
            self.wf(),
        ensures
            r is Some <==> self.entries().contains_key(id),
            r is Some ==> r->Some_0.is_bound() && r->Some_0.cache_of() == *self && *r->Some_0.entry
                == self.entries()[id],
    {
        match self.collection_map.get(&id) {
            Some(entry) => Some(BoundCollectionCacheEntry::new(self, entry)),
            None => None,
        }
    }

    /// The cached collection `id`, if any.
    pub fn get_collection_raw(&self, id: i64) -> (r: Option<&CollectionCacheEntry<'a>>)
        ensures
            r is Some <==> self.entries().contains_key(id),
            r is Some ==> *r->Some_0 == self.entries()[id],
    {
        self.collection_map.get(&id)
    }
}

/// A cached collection, with the cache it belongs to.
#[derive(Clone, Copy)]
pub struct BoundCollectionCacheEntry<'a> {
    pub cache: &'a LibraryCache<'a>,
    pub entry: &'a CollectionCacheEntry<'a>,
}

impl<'a> BoundCollectionCacheEntry<'a> {
    fn new(cache: &'a LibraryCache<'a>, entry: &'a CollectionCacheEntry<'a>) -> (r: Self)
        ensures
            r.cache == cache,
            r.entry == entry,
    {
        BoundCollectionCacheEntry { cache, entry }
    }

    /// The cache the entry belongs to.
    pub closed spec fn cache_of(&self) -> LibraryCache<'a> {
        *self.cache
    }

    /// The entry is the one that its well-formed cache files under its id.
    pub closed spec fn is_bound(&self) -> bool {
        &&& self.cache.wf()
        &&& self.cache.collection_map@.contains_key(self.entry.id)
        &&& self.cache.collection_map@[self.entry.id] == *self.entry
    }

    /// The path of collection ids from the root down to this collection.
    pub fn get_path(&self) -> (r: CollectionPath<'a>)
        requires
            self.is_bound(),
        ensures
            r.ids() == self.cache_of().path_ids(self.entry.id),
            r.ids() == match self.entry.parent {
                Some(p) => self.cache_of().path_ids(p).push(self.entry.id),
                None => seq![self.entry.id],
            },
            r.cache_of() == self.cache_of(),
        decreases self.cache_of().rank(self.entry.id),
    {
        let cache = self.cache;
        let mut path = match self.entry.parent {
            Some(id) => {
                let parent = match cache.get_collection(id) {
                    Some(p) => p,
                    None => {
                        proof {
                            assert(false);
                        }
                        return CollectionPath::new(cache);
                    },
                };
                parent.get_path()
            },
            None => CollectionPath::new(cache),
        };
        path.push(self.entry.id);
        proof {
            match self.entry.parent {
                Some(p) => {},
                None => {
                    assert(path.path@ =~= seq![self.entry.id]);
                },
            }
        }
        path
    }
}

/// The collections from a library's root down to one collection, by id.
pub struct CollectionPath<'a> {
    cache: &'a LibraryCache<'a>,
    path: Vec<i64>,
}

/// Why a collection path cannot be used as a directory path.
#[derive(Debug, Clone, Copy, PartialEq, Eq, Structural)]
pub enum CollectionFilePathError {
    DangerousSegmentName,
}

/// The names of the cached collections `ids`, in order.
pub open spec fn names_of<'a>(cache: LibraryCache<'a>, ids: Seq<i64>) -> Seq<Seq<char>> {
    ids.map_values(|id: i64| cache.entries()[id].collection.name@)
}

/// `parts` joined with ` > ` between each two.
pub open spec fn joined(parts: Seq<Seq<char>>) -> Seq<char>
    decreases parts.len(),
{
    if parts.len() == 0 {
        seq![]
    } else if parts.len() == 1 {
        parts[0]
    } else {
        joined(parts.drop_last()) + " > "@ + parts.last()
    }
}

impl<'a> CollectionPath<'a> {
    /// The ids of the path, root first.
    pub closed spec fn ids(&self) -> Seq<i64> {
        self.path@
    }

    /// The cache the path's ids refer to.
    pub closed spec fn cache_of(&self) -> LibraryCache<'a> {
        *self.cache
    }

    pub fn new(library: &'a LibraryCache<'a>) -> (r: Self)
        ensures
            r.ids() == Seq::<i64>::empty(),
            r.cache_of() == *library,
    {
        CollectionPath { cache: library, path: Vec::new() }
    }

    pub fn push(&mut self, value: i64)
        ensures
            final(self).ids() == old(self).ids().push(value),
            final(self).cache_of() == old(self).cache_of(),
    {
        self.path.push(value);
    }

    /// The names along the path, for use as directory names; each must be a
    /// single safe path segment.
    pub fn segments(&self) -> (r: Result<Vec<String>, CollectionFilePathError>)
        requires
            forall|k: int| 0 <= k < self.ids().len() ==> self.cache_of().entries().contains_key(#[trigger] self.ids()[k]),
        ensures
            r is Ok <==> forall|k: int|
                0 <= k < self.ids().len() ==> is_segment(#[trigger] names_of(self.cache_of(), self.ids())[k]),
            r is Ok ==> r->Ok_0@.len() == self.ids().len() && forall|k: int|
                0 <= k < self.ids().len() ==> (#[trigger] r->Ok_0@[k])@ == names_of(self.cache_of(), self.ids())[k],
    {
        let ghost names = names_of(*self.cache, self.path@);
        proof {
            assert forall|j: int| 0 <= j < self.path@.len() implies self.cache.collection_map@.contains_key(
                #[trigger] self.path@[j],
            ) by {
                assert(self.ids()[j] == self.path@[j]);
            }
        }
        let mut out: Vec<String> = Vec::new();
        let mut k: usize = 0;
        while k < self.path.len()
            invariant
                names == names_of(*self.cache, self.path@),
                forall|j: int| 0 <= j < self.path@.len() ==> self.cache.collection_map@.contains_key(#[trigger] self.path@[j]),
                k <= self.path@.len(),
                out@.len() == k,
                forall|j: int| 0 <= j < k ==> is_segment(#[trigger] names[j]),
                forall|j: int| 0 <= j < k ==> (#[trigger] out@[j])@ == names[j],
            decreases self.path@.len() - k,
        {
            let entry = match self.cache.get_collection_raw(self.path[k]) {
                Some(e) => e,
                None => {
                    proof {
                        assert(self.cache.collection_map@.contains_key(self.path@[k as int]));
                    }
                    return Err(CollectionFilePathError::DangerousSegmentName);
                },
            };
            let name = &entry.collection.name;
            assert(names[k as int] == name@);
            if !is_path_segment(name.as_str()) {
                proof {
                    assert(names_of(self.cache_of(), self.ids()) == names);
                    assert(!is_segment(names_of(self.cache_of(), self.ids())[k as int]));
                }
                return Err(CollectionFilePathError::DangerousSegmentName);
            }
            out.push(name.clone());
            k = k + 1;
        }
        Ok(out)
    }

    /// The names along the path, joined with ` > `.
    pub fn to_string(&self) -> (r: String)
        requires
            forall|k: int| 0 <= k < self.ids().len() ==> self.cache_of().entries().contains_key(#[trigger] self.ids()[k]),
        ensures
            r@ == joined(names_of(self.cache_of(), self.ids())),
    {
        let ghost names = names_of(*self.cache, self.path@);
        proof {
            assert forall|j: int| 0 <= j < self.path@.len() implies self.cache.collection_map@.contains_key(
                #[trigger] self.path@[j],
            ) by {
                assert(self.ids()[j] == self.path@[j]);
            }
        }
        let mut out = String::new();
        let mut k: usize = 0;
        while k < self.path.len()
            invariant
                names == names_of(*self.cache, self.path@),
                forall|j: int| 0 <= j < self.path@.len() ==> self.cache.collection_map@.contains_key(#[trigger] self.path@[j]),
                k <= self.path@.len(),
                out@ == joined(names.take(k as int)),
            decreases self.path@.len() - k,
        {
            let entry = match self.cache.get_collection_raw(self.path[k]) {
                Some(e) => e,
                None => {
                    proof {
                        assert(self.cache.collection_map@.contains_key(self.path@[k as int]));
                    }
                    return out;
                },
            };
            proof {
                assert(names.take(k + 1).drop_last() =~= names.take(k as int));
                assert(names.take(k + 1).last() == names[k as int]);
            }
            if k > 0 {
                out.append(" > ");
            } else {
                proof {
                    assert(out@ =~= Seq::<char>::empty());
                }
            }
            out.append(entry.collection.name.as_str());
            k = k + 1;
        }
        proof {
            assert(names.take(k as int) =~= names);
        }
        out
    }
}

/// What was chosen: a document of a library.
#[derive(Debug, Clone, Copy, PartialEq, Eq, Structural)]
pub struct Selection {
    pub library_id: i64,
    pub document_id: i64,
}

/// A selection, with the version of its format.
#[derive(Debug, Clone, Copy, PartialEq, Eq, Structural)]
pub struct SelectionOutput {
    pub version: i64,
    pub selection: Selection,
}

/// Why no selection was made.
#[derive(Debug, Clone, PartialEq, Eq)]
pub enum SelectError {
    /// The user chose to stop.
    UserExit,
    /// The document lies in more than one collection; the paths of those collections.
    AmbiguousCollections(Vec<String>),
    DuplicateCollectionIds,
    DangerousCollectionName,
}

impl SelectError {
    pub fn from_index_error(e: LibraryIndexFormatError) -> (r: SelectError)
        ensures
            r == SelectError::DuplicateCollectionIds,
    {
        match e {
            LibraryIndexFormatError::DuplicateIds => SelectError::DuplicateCollectionIds,
        }
    }

    pub fn from_path_error(e: CollectionFilePathError) -> (r: SelectError)
        ensures
            r == SelectError::DangerousCollectionName,
    {
        match e {
            CollectionFilePathError::DangerousSegmentName => SelectError::DangerousCollectionName,
        }
    }
}

/// The selection of `document` from `library`, whose collections `cache`
/// holds. A document filed in more than one collection is ambiguous: the
/// error lists the path of each of its collections.
pub fn select_document<'a>(library: &Library, document: &Document, cache: &'a LibraryCache<'a>) -> (r: Result<
    SelectionOutput,
    SelectError,
>)
    requires
        cache.wf(),
        forall|k: int|
            0 <= k < document.collection_ids@.len() ==> cache.entries().contains_key(
                #[trigger] document.collection_ids@[k],
            ),
    ensures
        document.collection_ids@.len() <= 1 ==> r == Ok::<SelectionOutput, SelectError>(
            SelectionOutput {
                version: API_VERSION,
                selection: Selection { library_id: library.id, document_id: document.id },
            },
        ),
        document.collection_ids@.len() > 1 ==> r is Err && r->Err_0 is AmbiguousCollections && {
            let paths = r->Err_0->AmbiguousCollections_0@;
            &&& paths.len() == document.collection_ids@.len()
            &&& forall|k: int|
                0 <= k < paths.len() ==> (#[trigger] paths[k])@ == joined(
                    names_of(*cache, cache.path_ids(document.collection_ids@[k])),
                )
        },
{
    if document.collection_ids.len() > 1 {
        let mut paths: Vec<String> = Vec::new();
        let mut k: usize = 0;
        while k < document.collection_ids.len()
            invariant
                cache.wf(),
                forall|j: int|
                    0 <= j < document.collection_ids@.len() ==> cache.entries().contains_key(
                        #[trigger] document.collection_ids@[j],
                    ),
                k <= document.collection_ids@.len(),
                paths@.len() == k,
                forall|j: int|
                    0 <= j < k ==> (#[trigger] paths@[j])@ == joined(
                        names_of(*cache, cache.path_ids(document.collection_ids@[j])),
                    ),
            decreases document.collection_ids@.len() - k,
        {
            let id = document.collection_ids[k];
            let entry = match cache.get_collection(id) {
                Some(e) => e,
                None => {
                    return Err(SelectError::AmbiguousCollections(paths));
                },
            };
            let path = entry.get_path();
            proof {
                lemma_path_ids_cached(*cache, id);
            }
            paths.push(path.to_string());
            k = k + 1;
        }
        return Err(SelectError::AmbiguousCollections(paths));
    }
    Ok(
        SelectionOutput {
            version: API_VERSION,
            selection: Selection { library_id: library.id, document_id: document.id },
        },
    )
}

/// The path of a cached collection is its parent's path followed by its own
/// id, or its id alone for a collection at the root; the entry is filed
/// under its own id.
pub proof fn lemma_path_ids_step<'a>(cache: LibraryCache<'a>, id: i64)
    requires
        cache.wf(),
        cache.entries().contains_key(id),
    ensures
        cache.entries()[id].id == id,
        cache.path_ids(id) == match cache.entries()[id].parent {
            Some(p) => cache.path_ids(p).push(id),
            None => seq![id],
        },
        cache.entries()[id].parent matches Some(p) ==> cache.entries().contains_key(p),
{
}

/// The path of a cached collection starts at a collection at the root, goes
/// from each collection to one of its children, and ends at the collection.
pub proof fn lemma_path_ids_shape<'a>(cache: LibraryCache<'a>, id: i64)
    requires
        cache.wf(),
        cache.entries().contains_key(id),
    ensures
        cache.path_ids(id).len() > 0,
        cache.path_ids(id).last() == id,
        cache.entries().contains_key(cache.path_ids(id)[0]),
        cache.entries()[cache.path_ids(id)[0]].parent is None,
        forall|k: int|
            0 <= k < cache.path_ids(id).len() - 1 ==> cache.entries().contains_key(
                #[trigger] cache.path_ids(id)[k + 1],
            ) && cache.entries()[cache.path_ids(id)[k + 1]].parent == Some(cache.path_ids(id)[k]),
    decreases cache.rank(id),
{
    let e = cache.collection_map@[id];
    match e.parent {
        Some(p) => {
            lemma_path_ids_shape(cache, p);
            let ps = cache.path_ids(p);
            let path = cache.path_ids(id);
            assert(path == ps.push(id));
            assert(path[0] == ps[0]);
            assert forall|k: int| 0 <= k < path.len() - 1 implies cache.entries().contains_key(
                #[trigger] path[k + 1],
            ) && cache.entries()[path[k + 1]].parent == Some(path[k]) by {
                if k + 1 < ps.len() {
                    assert(path[k + 1] == ps[k + 1]);
                    assert(path[k] == ps[k]);
                } else {
                    assert(path[k + 1] == id);
                    assert(path[k] == ps.last());
                }
            }
        },
        None => {},
    }
}

/// Every id on the path of a cached collection is cached.
pub proof fn lemma_path_ids_cached<'a>(cache: LibraryCache<'a>, id: i64)
    requires
        cache.wf(),
        cache.entries().contains_key(id),
    ensures
        forall|k: int|
            0 <= k < cache.path_ids(id).len() ==> cache.entries().contains_key(#[trigger] cache.path_ids(id)[k]),
    decreases cache.rank(id),
{
    let e = cache.collection_map@[id];
    match e.parent {
        Some(p) => {
            lemma_path_ids_cached(cache, p);
            let ps = cache.path_ids(p);
            assert(cache.path_ids(id) == ps.push(id));
            assert forall|k: int| 0 <= k < cache.path_ids(id).len() implies cache.entries().contains_key(
                #[trigger] cache.path_ids(id)[k],
            ) by {
                if k < ps.len() {
                    assert(cache.path_ids(id)[k] == ps[k]);
                }
            }
        },
        None => {},
    }
}

} // verus!
