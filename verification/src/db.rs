use vstd::prelude::*;

verus! {

use vstd::string::*;
use vstd::set_lib::*;
use crate::error::{DbError, DecodeErr};
use crate::object::{
    Object, ObjectView, ObjectType, ObjectTypeView, spec_decode,
};
use crate::stream::{ByteStream, clone_bytes};
use crate::parse::str_eq;

/// What flate2's zlib decoder produces for a compressed stream: a function of
/// the bytes alone; nothing when the stream is not a valid zlib stream.
pub uninterp spec fn zlib_inflate(compressed: Seq<u8>) -> Option<Seq<u8>>;

/// Relies on flate2::read::ZlibDecoder: decompresses one whole zlib stream;
/// the result depends on the input bytes alone.
#[verifier::external_body]
fn inflate(compressed: &Vec<u8>) -> (r: Option<Vec<u8>>)
    ensures
        match r {
            Some(v) => zlib_inflate(compressed@) == Some(v@),
            None => zlib_inflate(compressed@) == None::<Seq<u8>>,
        },
{
    let mut out = Vec::new();
    let mut decoder = flate2::read::ZlibDecoder::new(compressed.as_slice());
    match std::io::Read::read_to_end(&mut decoder, &mut out) {
        Ok(_) => Some(out),
        Err(_) => None,
    }
}

/// A source of stored objects: a map from hash text to the compressed bytes
/// of one object. `MemorySource` implements it inside the library; a
/// file-system store can implement it outside.
pub trait ObjectSource {
    /// The store's content: a map from hash text to compressed bytes. An
    /// implementation outside the library keeps this default, empty model;
    /// `MemorySource` overrides it with its real content.
    open spec fn store(&self) -> Map<Seq<char>, Seq<u8>> {
        Map::empty()
    }

    /// The compressed bytes of one object. `NotFound` is only for a hash the
    /// store does not hold; `IoError` only for a fault of the underlying
    /// medium.
    fn fetch(&self, object_hash: &str) -> (r: Result<Vec<u8>, DbError>)
        ensures
            match r {
                Ok(v) => self.store().contains_key(object_hash@) && v@ == self.store().index(
                    object_hash@,
                ),
                Err(DbError::NotFound(h)) => h@ == object_hash@ && !self.store().contains_key(
                    object_hash@,
                ),
                Err(DbError::IoError(h)) => h@ == object_hash@,
                Err(_) => false,
            },
    ;
}

/// An in-memory object store; a later insert for the same hash wins.
pub struct MemorySource {
    entries: Vec<(String, Vec<u8>)>,
}

/// The map that an entry list denotes: entries folded in order, later ones
/// overriding earlier ones.
pub open spec fn entries_store(entries: Seq<(String, Vec<u8>)>) -> Map<Seq<char>, Seq<u8>>
    decreases entries.len(),
{
    if entries.len() == 0 {
        Map::empty()
    } else {
        entries_store(entries.drop_last()).insert(entries.last().0@, entries.last().1@)
    }
}

/// Entries above `i` that all miss `h` do not change what the store holds at
/// `h`.
proof fn lemma_entries_store_prefix(entries: Seq<(String, Vec<u8>)>, i: int, h: Seq<char>)
    requires
        0 <= i <= entries.len(),
        forall|k: int| i <= k < entries.len() ==> (#[trigger] entries[k]).0@ != h,
    ensures
        entries_store(entries).contains_key(h) == entries_store(entries.take(i)).contains_key(h),
        entries_store(entries).contains_key(h) ==> entries_store(entries)[h] == entries_store(
            entries.take(i),
        )[h],
    decreases entries.len() - i,
{
    if i == entries.len() {
        assert(entries.take(i) =~= entries);
    } else {
        lemma_entries_store_prefix(entries, i + 1, h);
        assert(entries.take(i + 1).drop_last() =~= entries.take(i));
        assert(entries.take(i + 1).last() == entries[i]);
    }
}

impl MemorySource {
    /// An empty store.
    pub fn new() -> (r: MemorySource)
        ensures
            r.store() == Map::<Seq<char>, Seq<u8>>::empty(),
    {
        MemorySource { entries: Vec::new() }
    }

    /// An in-memory store is finite, as `walk_log` asks of a source.
    pub proof fn lemma_store_finite(&self)
        ensures
            self.store().dom().finite(),
    {
        lemma_entries_store_finite(self.entries@);
    }

    /// Adds one object, replacing any earlier one under the same hash.
    pub fn insert(&mut self, object_hash: String, compressed: Vec<u8>)
        ensures
            final(self).store() == old(self).store().insert(object_hash@, compressed@),
    {
        let ghost pre = self.entries@;
        self.entries.push((object_hash, compressed));
        proof {
            assert(self.entries@.drop_last() =~= pre);
        }
    }
}

proof fn lemma_entries_store_finite(entries: Seq<(String, Vec<u8>)>)
    ensures
        entries_store(entries).dom().finite(),
    decreases entries.len(),
{
    if entries.len() > 0 {
        lemma_entries_store_finite(entries.drop_last());
    }
}

impl ObjectSource for MemorySource {
    closed spec fn store(&self) -> Map<Seq<char>, Seq<u8>> {
        entries_store(self.entries@)
    }

    fn fetch(&self, object_hash: &str) -> (r: Result<Vec<u8>, DbError>) {
        let mut i: usize = self.entries.len();
        while i > 0
            invariant
                i <= self.entries@.len(),
                forall|k: int| i <= k < self.entries@.len() ==> (#[trigger] self.entries@[k]).0@
                    != object_hash@,
            decreases i,
        {
            i = i - 1;
            if str_eq(self.entries[i].0.as_str(), object_hash) {
                let data = clone_bytes(&self.entries[i].1);
                proof {
                    lemma_entries_store_prefix(self.entries@, i + 1, object_hash@);
                    assert(self.entries@.take(i + 1).drop_last() =~= self.entries@.take(i as int));
                    assert(self.entries@.take(i + 1).last() == self.entries@[i as int]);
                }
                return Ok(data);
            }
        }
        proof {
            lemma_entries_store_prefix(self.entries@, 0, object_hash@);
            assert(self.entries@.take(0) =~= Seq::<(String, Vec<u8>)>::empty());
        }
        Err(DbError::NotFound(object_hash.to_owned()))
    }
}

/// A commit store rooted at a path; objects live at
/// `<root>/objects/<hash[0..2]>/<hash[2..]>`.
#[derive(Debug)]
pub struct Database {
    path: String,
}

/// The object, as this library decodes it, that `store` holds under
/// `o.hash`.
pub open spec fn store_decodes(store: Map<Seq<char>, Seq<u8>>, o: ObjectView) -> bool {
    &&& store.contains_key(o.hash)
    &&& (zlib_inflate(store[o.hash]) matches Some(b) && spec_decode(o.hash, b) == Ok::<
        ObjectView,
        DecodeErr,
    >(o))
}

/// The parent hashes of a commit object; empty for every other kind.
pub open spec fn spec_parents(o: ObjectView) -> Seq<Seq<char>> {
    match o.object_type {
        ObjectTypeView::Commit(c) => c.parents,
        _ => Seq::empty(),
    }
}

pub open spec fn is_commit(o: ObjectView) -> bool {
    o.object_type matches ObjectTypeView::Commit(_)
}

/// Does some visited object own hash `p`?
pub open spec fn visited_has(vs: Seq<ObjectView>, p: Seq<char>) -> bool {
    exists|m: int| 0 <= m < vs.len() && (#[trigger] vs[m]).hash == p
}

/// Is `p` a parent of some visited object?
pub open spec fn visited_has_parent(vs: Seq<ObjectView>, p: Seq<char>) -> bool {
    exists|m: int| 0 <= m < vs.len() && (#[trigger] spec_parents(vs[m])).contains(p)
}

/// The hashes of the visited objects.
pub open spec fn visited_set(vs: Seq<ObjectView>) -> Set<Seq<char>> {
    Set::new(|p: Seq<char>| visited_has(vs, p))
}

/// What the walk discipline yields on a store: the full visitation
/// sequence, or the first hash, in traversal order, at which the walk gets
/// stuck.
#[verifier::ext_equal]
pub enum WalkOutcome {
    Done(Seq<ObjectView>),
    Stuck(Seq<char>),
}

/// The walk's exact discipline, as a function of the store alone: pop the
/// top of the stack; skip it when already visited; otherwise it must decode
/// to a commit, whose parents are pushed in declaration order and which is
/// appended to the visitation sequence. The walk gets stuck at a hash that
/// is absent, does not decode, or is not a commit.
pub open spec fn spec_walk(
    store: Map<Seq<char>, Seq<u8>>,
    stack: Seq<Seq<char>>,
    vs: Seq<ObjectView>,
) -> WalkOutcome
    decreases store.dom().difference(visited_set(vs)).len(), stack.len()
        when store.dom().finite()
        via spec_walk_decreases
{
    if stack.len() == 0 {
        WalkOutcome::Done(vs)
    } else {
        let h = stack.last();
        if visited_has(vs, h) {
            spec_walk(store, stack.drop_last(), vs)
        } else if !store.contains_key(h) {
            WalkOutcome::Stuck(h)
        } else {
            match zlib_inflate(store[h]) {
                None => WalkOutcome::Stuck(h),
                Some(b) => match spec_decode(h, b) {
                    Err(_) => WalkOutcome::Stuck(h),
                    Ok(o) => {
                        if is_commit(o) {
                            spec_walk(store, stack.drop_last() + spec_parents(o), vs.push(o))
                        } else {
                            WalkOutcome::Stuck(h)
                        }
                    },
                },
            }
        }
    }
}

/// One more visited object adds exactly its own hash to the visited set.
proof fn lemma_visited_set_push(vs: Seq<ObjectView>, o: ObjectView)
    ensures
        visited_set(vs.push(o)) =~= visited_set(vs).insert(o.hash),
{
    assert forall|p: Seq<char>|
        visited_set(vs.push(o)).contains(p) == visited_set(vs).insert(o.hash).contains(p) by {
        if visited_has(vs.push(o), p) {
            let m = choose|m: int| 0 <= m < vs.push(o).len() && vs.push(o)[m].hash == p;
            if m < vs.len() {
                assert(vs[m].hash == p);
            }
        }
        if visited_has(vs, p) {
            let m = choose|m: int| 0 <= m < vs.len() && vs[m].hash == p;
            assert(vs.push(o)[m].hash == p);
        }
        if p == o.hash {
            assert(vs.push(o)[vs.len() as int].hash == p);
        }
    }
}

#[via_fn]
proof fn spec_walk_decreases(store: Map<Seq<char>, Seq<u8>>, stack: Seq<Seq<char>>, vs: Seq<
    ObjectView,
>) {
    if stack.len() > 0 {
        let h = stack.last();
        if !visited_has(vs, h) && store.contains_key(h) {
            match zlib_inflate(store[h]) {
                Some(b) => match spec_decode(h, b) {
                    Ok(o) => {
                        if is_commit(o) {
                            assert(o.hash == h);
                            lemma_visited_set_push(vs, o);
                            assert(!visited_set(vs).contains(h));
                            store.dom().lemma_set_insert_diff_decreases(visited_set(vs), h);
                        }
                    },
                    Err(_) => {},
                },
                None => {},
            }
        }
    }
}

/// A hash found among visited objects is still found after one more visit.
proof fn lemma_visited_lift(vs0: Seq<ObjectView>, ov: ObjectView, p: Seq<char>)
    requires
        visited_has(vs0, p),
    ensures
        visited_has(vs0.push(ov), p),
{
    let m = choose|m: int| 0 <= m < vs0.len() && vs0[m].hash == p;
    assert(vs0.push(ov)[m].hash == p);
}

/// A parent link found among visited objects is still found after one more
/// visit.
proof fn lemma_parent_lift(vs0: Seq<ObjectView>, ov: ObjectView, p: Seq<char>)
    requires
        visited_has_parent(vs0, p),
    ensures
        visited_has_parent(vs0.push(ov), p),
{
    let m = choose|m: int| 0 <= m < vs0.len() && spec_parents(vs0[m]).contains(p);
    assert(spec_parents(vs0.push(ov)[m]).contains(p));
}

impl Database {
    /// The store root.
    pub closed spec fn spec_path(&self) -> Seq<char> {
        self.path@
    }

    pub fn new(path: String) -> (r: Database)
        ensures
            r.spec_path() == path@,
    {
        Database { path }
    }

    /// The storage path of an object: the root, then `objects`, then the
    /// first two characters of the hash, then the rest, joined with `/`.
    /// No other split of the hash is valid.
    pub fn object_path(&self, object_hash: &str) -> (r: String)
        requires
            object_hash@.len() >= 2,
        ensures
            r@ == self.spec_path() + "/objects/"@ + object_hash@.take(2) + "/"@ + object_hash@.skip(
                2,
            ),
    {
        let mut r = self.path.clone();
        r.append("/objects/");
        r.append(object_hash.substring_char(0, 2));
        r.append("/");
        let n = object_hash.unicode_len();
        r.append(object_hash.substring_char(2, n));
        proof {
            assert(r@ =~= self.spec_path() + "/objects/"@ + object_hash@.take(2) + "/"@
                + object_hash@.skip(2));
        }
        r
    }

    /// Reads one object through a source: fetch the compressed bytes,
    /// decompress them, and decode, attaching the hash.
    pub fn read_object<S: ObjectSource>(&self, object_hash: &str, source: &S) -> (r: Result<
        Object,
        DbError,
    >)
        ensures
            match r {
                Ok(o) => o@.hash == object_hash@ && store_decodes(source.store(), o@),
                Err(DbError::NotFound(h)) => h@ == object_hash@ && !source.store().contains_key(
                    object_hash@,
                ),
                Err(DbError::IoError(h)) => h@ == object_hash@,
                Err(DbError::DecodeFailure(h, e)) => {
                    &&& h@ == object_hash@
                    &&& source.store().contains_key(object_hash@)
                    &&& (zlib_inflate(source.store()[object_hash@]) matches Some(b) && spec_decode(
                        object_hash@,
                        b,
                    ) == Err::<ObjectView, DecodeErr>(e@))
                },
                Err(DbError::NotACommit(_)) => false,
            },
    {
        let compressed = match source.fetch(object_hash) {
            Ok(v) => v,
            Err(e) => {
                return Err(e);
            },
        };
        let decompressed = match inflate(&compressed) {
            Some(v) => v,
            None => {
                return Err(DbError::IoError(object_hash.to_owned()));
            },
        };
        let mut reader = ByteStream::new(decompressed);
        match Object::from_reader(object_hash.to_owned(), &mut reader) {
            Ok(o) => Ok(o),
            Err(e) => Err(DbError::DecodeFailure(object_hash.to_owned(), e)),
        }
    }

    /// Walks the commit ancestry graph from `commit_hash`: a stack-seeded
    /// traversal that pops a hash, reads and checks it is a commit, pushes
    /// its parents in declaration order, and visits it; a hash is visited at
    /// most once, so the walk terminates even on a cyclic store. Returns the
    /// commits in visitation order. A failing walk returns only its error:
    /// the commits visited before the failure are not handed back; every
    /// failure but a medium fault names the hash the walk got stuck on,
    /// which is where `spec_walk` says this store's walk sticks.
    #[verifier::rlimit(60)]
    pub fn walk_log<S: ObjectSource>(&self, commit_hash: &str, source: &S) -> (r: Result<
        Vec<Object>,
        DbError,
    >)
        requires
            source.store().dom().finite(),
        ensures
            match r {
                Ok(objs) => {
                    let vs = objs.deep_view();
                    &&& spec_walk(source.store(), seq![commit_hash@], Seq::empty())
                        == WalkOutcome::Done(vs)
                    &&& vs.len() >= 1
                    &&& vs[0].hash == commit_hash@
                    &&& forall|k: int|
                        0 <= k < vs.len() ==> is_commit(#[trigger] vs[k]) && store_decodes(
                            source.store(),
                            vs[k],
                        )
                    &&& forall|k: int, j: int|
                        0 <= k < j < vs.len() ==> (#[trigger] vs[k]).hash != (#[trigger] vs[j]).hash
                    &&& forall|k: int, p: Seq<char>|
                        0 <= k < vs.len() && #[trigger] spec_parents(vs[k]).contains(p)
                            ==> visited_has(vs, p)
                    &&& forall|k: int|
                        1 <= k < vs.len() ==> visited_has_parent(vs, (#[trigger] vs[k]).hash)
                },
                Err(DbError::NotFound(h)) => spec_walk(source.store(), seq![commit_hash@], Seq::empty())
                    == WalkOutcome::Stuck(h@) && !source.store().contains_key(h@),
                Err(DbError::DecodeFailure(h, e)) => spec_walk(
                    source.store(),
                    seq![commit_hash@],
                    Seq::empty(),
                ) == WalkOutcome::Stuck(h@) && source.store().contains_key(h@) && (zlib_inflate(
                    source.store()[h@],
                ) matches Some(b) && spec_decode(h@, b) == Err::<ObjectView, DecodeErr>(e@)),
                Err(DbError::NotACommit(h)) => spec_walk(source.store(), seq![commit_hash@], Seq::empty())
                    == WalkOutcome::Stuck(h@) && exists|o: ObjectView| o.hash == h@
                    && #[trigger] store_decodes(source.store(), o) && !is_commit(o),
                Err(DbError::IoError(_)) => true,
            },
    {
        let ghost store = source.store();
        let ghost mut seen: Set<Seq<char>> = Set::empty();
        let mut visited: Vec<Object> = Vec::new();
        let mut stack: Vec<String> = Vec::new();
        stack.push(commit_hash.to_owned());
        proof {
            assert(stack.deep_view() =~~= seq![commit_hash@]);
            assert(visited.deep_view() =~~= Seq::<ObjectView>::empty());
        }
        loop
            invariant_except_break
                store == source.store(),
                store.dom().finite(),
                spec_walk(store, stack.deep_view(), visited.deep_view()) == spec_walk(
                    store,
                    seq![commit_hash@],
                    Seq::empty(),
                ),
                forall|p: Seq<char>| #[trigger] seen.contains(p) <==> visited_has(
                    visited.deep_view(),
                    p,
                ),
                ({
                    let vs = visited.deep_view();
                    let sk = stack.deep_view();
                    &&& (forall|k: int|
                        0 <= k < vs.len() ==> is_commit(#[trigger] vs[k]) && store_decodes(
                            store,
                            vs[k],
                        ))
                    &&& (forall|k: int, j: int|
                        0 <= k < j < vs.len() ==> (#[trigger] vs[k]).hash != (
                        #[trigger] vs[j]).hash)
                    &&& (vs.len() == 0 ==> sk =~~= seq![commit_hash@])
                    &&& (vs.len() >= 1 ==> vs[0].hash == commit_hash@)
                    &&& (forall|t: int|
                        0 <= t < sk.len() && vs.len() >= 1 ==> visited_has_parent(
                            vs,
                            #[trigger] sk[t],
                        ))
                    &&& (forall|k: int, p: Seq<char>|
                        0 <= k < vs.len() && #[trigger] spec_parents(vs[k]).contains(p)
                            ==> visited_has(vs, p) || sk.contains(p))
                    &&& (forall|k: int|
                        1 <= k < vs.len() ==> visited_has_parent(vs, (#[trigger] vs[k]).hash))
                }),
            ensures
                store == source.store(),
                spec_walk(store, seq![commit_hash@], Seq::empty()) == WalkOutcome::Done(
                    visited.deep_view(),
                ),
                ({
                    let vs = visited.deep_view();
                    &&& vs.len() >= 1
                    &&& vs[0].hash == commit_hash@
                    &&& (forall|k: int|
                        0 <= k < vs.len() ==> is_commit(#[trigger] vs[k]) && store_decodes(
                            store,
                            vs[k],
                        ))
                    &&& (forall|k: int, j: int|
                        0 <= k < j < vs.len() ==> (#[trigger] vs[k]).hash != (
                        #[trigger] vs[j]).hash)
                    &&& (forall|k: int, p: Seq<char>|
                        0 <= k < vs.len() && #[trigger] spec_parents(vs[k]).contains(p)
                            ==> visited_has(vs, p))
                    &&& (forall|k: int|
                        1 <= k < vs.len() ==> visited_has_parent(vs, (#[trigger] vs[k]).hash))
                }),
            decreases store.dom().difference(seen).len(), stack.len(),
        {
            let ghost vs0 = visited.deep_view();
            let ghost seen0 = seen;
            let ghost sk0 = stack.deep_view();
            let h = match stack.pop() {
                Some(h) => h,
                None => {
                    proof {
                        assert(visited.deep_view().len() >= 1);
                        assert(stack.deep_view() =~~= Seq::<Seq<char>>::empty());
                        assert(spec_walk(store, stack.deep_view(), visited.deep_view())
                            == WalkOutcome::Done(visited.deep_view()));
                    }
                    break;
                },
            };
            proof {
                assert(stack.deep_view() =~~= sk0.drop_last());
                assert(h@ == sk0.last());
            }
            if contains_hash(&visited, &h) {
                proof {
                    let vs = visited.deep_view();
                    let sk = stack.deep_view();
                    assert(vs.len() >= 1);
                    assert forall|k: int, p: Seq<char>|
                        0 <= k < vs.len() && #[trigger] spec_parents(vs[k]).contains(p) implies (
                    visited_has(vs, p) || sk.contains(p)) by {
                        if !visited_has(vs, p) {
                            assert(sk0.contains(p));
                            let t = choose|t: int| 0 <= t < sk0.len() && sk0[t] == p;
                            if t < sk0.len() - 1 {
                                assert(sk[t] == p);
                                assert(sk.contains(p));
                            } else {
                                assert(p == h@);
                            }
                        }
                    }
                    assert forall|t: int|
                        0 <= t < sk.len() && vs.len() >= 1 implies visited_has_parent(
                        vs,
                        #[trigger] sk[t],
                    ) by {
                        assert(sk[t] == sk0[t]);
                    }
                    assert(spec_walk(store, sk0, vs0) == spec_walk(store, sk0.drop_last(), vs0));
                }
                continue;
            }
            let obj = match self.read_object(h.as_str(), source) {
                Ok(o) => o,
                Err(e) => {
                    proof {
                        match e {
                            DbError::NotFound(_) => {
                                assert(spec_walk(store, sk0, vs0) == WalkOutcome::Stuck(h@));
                            },
                            DbError::DecodeFailure(_, _) => {
                                assert(spec_walk(store, sk0, vs0) == WalkOutcome::Stuck(h@));
                            },
                            _ => {},
                        }
                    }
                    return Err(e);
                },
            };
            let ghost ov = obj@;
            match &obj.object_type {
                ObjectType::Commit(c) => {
                    let ghost base = stack.deep_view();
                    let mut pi: usize = 0;
                    while pi < c.parents.len()
                        invariant
                            pi <= c.parents@.len(),
                            stack.deep_view() =~~= base + c.parents.deep_view().take(pi as int),
                        decreases c.parents@.len() - pi,
                    {
                        let ghost st0 = stack.deep_view();
                        let p = c.parents[pi].as_str().to_owned();
                        proof {
                            assert(p@ == c.parents.deep_view()[pi as int]);
                        }
                        stack.push(p);
                        pi = pi + 1;
                        proof {
                            let pv = c.parents.deep_view();
                            assert(stack.deep_view() =~~= st0.push(pv[pi - 1]));
                            assert(pv.take(pi as int) =~~= pv.take(pi - 1).push(pv[pi - 1]));
                            assert(st0.push(pv[pi - 1]) =~~= (base + pv.take(pi - 1)).push(
                                pv[pi - 1],
                            ));
                            assert((base + pv.take(pi - 1)).push(pv[pi - 1]) =~~= base + pv.take(
                                pi as int,
                            ));
                        }
                    }
                    proof {
                        assert(c.parents.deep_view().take(c.parents@.len() as int)
                            =~~= c.parents.deep_view());
                        assert(spec_parents(ov) == c.parents.deep_view());
                    }
                },
                _ => {
                    proof {
                        assert(store_decodes(store, ov) && !is_commit(ov));
                        assert(ov.hash == h@);
                        assert(spec_walk(store, sk0, vs0) == WalkOutcome::Stuck(h@));
                    }
                    return Err(DbError::NotACommit(h));
                },
            }
            visited.push(obj);
            proof {
                seen = seen.insert(ov.hash);
                assert(visited.deep_view() =~~= vs0.push(ov));
                assert forall|p: Seq<char>| #[trigger] seen.contains(p) <==> visited_has(
                    visited.deep_view(),
                    p,
                ) by {
                    if seen.contains(p) {
                        if p == ov.hash {
                            assert(visited.deep_view()[vs0.len() as int].hash == p);
                        } else {
                            assert(visited_has(vs0, p));
                            let m = choose|m: int| 0 <= m < vs0.len() && vs0[m].hash == p;
                            assert(visited.deep_view()[m].hash == p);
                        }
                    }
                    if visited_has(visited.deep_view(), p) {
                        let m = choose|m: int|
                            0 <= m < visited.deep_view().len() && visited.deep_view()[m].hash == p;
                        if m < vs0.len() {
                            assert(vs0[m].hash == p);
                        }
                    }
                }
                assert(!seen0.contains(ov.hash));
                store.dom().lemma_set_insert_diff_decreases(seen0, ov.hash);
                let vs = visited.deep_view();
                let sk = stack.deep_view();
                let skp = sk0.drop_last();
                assert(sk =~~= skp + spec_parents(ov));
                assert(ov.hash == h@);
                assert(h@ == sk0.last());
                // every visited object decodes from the store and is a commit
                assert forall|k: int|
                    0 <= k < vs.len() implies is_commit(#[trigger] vs[k]) && store_decodes(
                    store,
                    vs[k],
                ) by {
                    if k < vs0.len() {
                        assert(vs[k] == vs0[k]);
                    } else {
                        assert(vs[k] == ov);
                    }
                }
                // hashes stay pairwise distinct
                assert forall|k: int, j: int|
                    0 <= k < j < vs.len() implies (#[trigger] vs[k]).hash != (
                #[trigger] vs[j]).hash by {
                    if j == vs0.len() {
                        if vs[k].hash == ov.hash {
                            assert(visited_has(vs0, ov.hash));
                        }
                    }
                }
                // the first visit is the seed
                if vs0.len() == 0 {
                    assert(sk0 =~~= seq![commit_hash@]);
                    assert(vs[0].hash == commit_hash@);
                }
                // every stack entry is a parent of some visited object
                assert forall|t: int|
                    0 <= t < sk.len() && vs.len() >= 1 implies visited_has_parent(
                    vs,
                    #[trigger] sk[t],
                ) by {
                    if t < skp.len() {
                        assert(sk[t] == sk0[t]);
                        assert(vs0.len() >= 1);
                        lemma_parent_lift(vs0, ov, sk0[t]);
                    } else {
                        assert(sk[t] == spec_parents(ov)[t - skp.len()]);
                        assert(spec_parents(vs[vs0.len() as int]).contains(sk[t]));
                    }
                }
                // every parent of a visited object is visited or still queued
                assert forall|k: int, p: Seq<char>|
                    0 <= k < vs.len() && #[trigger] spec_parents(vs[k]).contains(p) implies (
                visited_has(vs, p) || sk.contains(p)) by {
                    if k < vs0.len() {
                        if visited_has(vs0, p) {
                            lemma_visited_lift(vs0, ov, p);
                        } else {
                            assert(sk0.contains(p));
                            let t = choose|t: int| 0 <= t < sk0.len() && sk0[t] == p;
                            if t < sk0.len() - 1 {
                                assert(sk[t] == p);
                                assert(sk.contains(p));
                            } else {
                                assert(p == ov.hash);
                                assert(vs[vs0.len() as int].hash == p);
                            }
                        }
                    } else {
                        let j = choose|j: int|
                            0 <= j < spec_parents(ov).len() && spec_parents(ov)[j] == p;
                        assert(sk[skp.len() + j] == p);
                        assert(sk.contains(p));
                    }
                }
                // every visit after the seed was reached through a parent link
                assert forall|k: int|
                    1 <= k < vs.len() implies visited_has_parent(vs, (#[trigger] vs[k]).hash) by {
                    if k < vs0.len() {
                        lemma_parent_lift(vs0, ov, vs0[k].hash);
                    } else {
                        assert(vs0.len() >= 1);
                        assert(visited_has_parent(vs0, sk0.last()));
                        lemma_parent_lift(vs0, ov, ov.hash);
                    }
                }
                // one step of the walk's defining discipline
                assert(is_commit(ov));
                assert(spec_walk(store, sk0, vs0) == spec_walk(store, skp + spec_parents(ov), vs));
                assert(sk == skp + spec_parents(ov));
            }
        }
        Ok(visited)
    }
}

/// Is `h` the hash of some already-visited object?
fn contains_hash(objs: &Vec<Object>, h: &String) -> (r: bool)
    ensures
        r == visited_has(objs.deep_view(), h@),
{
    let mut k: usize = 0;
    while k < objs.len()
        invariant
            k <= objs@.len(),
            forall|m: int| 0 <= m < k ==> (#[trigger] objs.deep_view()[m]).hash != h@,
        decreases objs@.len() - k,
    {
        if str_eq(objs[k].hash.as_str(), h.as_str()) {
            proof {
                assert(objs.deep_view()[k as int].hash == h@);
            }
            return true;
        }
        k = k + 1;
    }
    false
}

} // verus!
