//! The store: loose objects first, then the packs in the order in which
//! they were attached.

use crate::error::Error;
use crate::format::ObjectView;
use crate::object::Object;
use crate::pack::Pack;
use vstd::prelude::*;

verus! {

/// A decoded loose object under its hash.
#[derive(Debug, PartialEq, Eq)]
pub struct LooseObject {
    pub hash: crate::object::Hash,
    pub obj: Object,
}

/// A loose object as mathematics.
pub struct LooseView {
    pub hash: Seq<u8>,
    pub obj: ObjectView,
}

impl View for LooseObject {
    type V = LooseView;

    open spec fn view(&self) -> LooseView {
        LooseView { hash: self.hash@, obj: self.obj@ }
    }
}

/// The views of a run of loose objects.
pub open spec fn loose_views(s: Seq<LooseObject>) -> Seq<LooseView> {
    Seq::new(s.len(), |i: int| s[i]@)
}

/// The place of the first loose object under the hash `h`; the number
/// of loose objects where there is none.
pub open spec fn loose_index(loose: Seq<LooseView>, h: Seq<u8>) -> int
    decreases loose.len(),
{
    if loose.len() == 0 {
        0
    } else if loose[0].hash == h {
        0
    } else {
        1 + loose_index(loose.drop_first(), h)
    }
}

/// The loose object under the hash `h`.
pub open spec fn loose_lookup(loose: Seq<LooseView>, h: Seq<u8>) -> Option<ObjectView> {
    let i = loose_index(loose, h);
    if i < loose.len() {
        Some(loose[i].obj)
    } else {
        None
    }
}

/// A place with the hash `h` and none such before it is the one that
/// `loose_index` gives; so is the end, where no object is under `h`.
pub proof fn lemma_loose_index(loose: Seq<LooseView>, h: Seq<u8>, p: int)
    requires
        0 <= p <= loose.len(),
        forall|i: int| 0 <= i < p ==> (#[trigger] loose[i]).hash != h,
        p < loose.len() ==> loose[p].hash == h,
    ensures
        loose_index(loose, h) == p,
    decreases p,
{
    if p > 0 {
        let t = loose.drop_first();
        assert(loose[0].hash != h);
        assert forall|i: int| 0 <= i < p - 1 implies (#[trigger] t[i]).hash != h by {
            assert(t[i] == loose[i + 1]);
        }
        lemma_loose_index(t, h, p - 1);
    }
}

/// `loose_index` stays within the store; nothing before it is under
/// `h`, and what is at it, where it is a place, is.
pub proof fn lemma_loose_index_bounds(loose: Seq<LooseView>, h: Seq<u8>)
    ensures
        0 <= loose_index(loose, h) <= loose.len(),
        forall|i: int| 0 <= i < loose_index(loose, h) ==> (#[trigger] loose[i]).hash != h,
        loose_index(loose, h) < loose.len() ==> loose[loose_index(loose, h)].hash == h,
    decreases loose.len(),
{
    if loose.len() != 0 && loose[0].hash != h {
        let t = loose.drop_first();
        lemma_loose_index_bounds(t, h);
        assert forall|i: int| 0 <= i < loose_index(loose, h) implies (#[trigger] loose[i]).hash
            != h by {
            if i > 0 {
                assert(loose[i] == t[i - 1]);
            }
        }
    }
}

/// Finds the first loose object under `hash`; gives the number of
/// loose objects where there is none.
pub fn find_loose(loose: &[LooseObject], hash: &crate::object::Hash) -> (res: usize)
    ensures
        res == loose_index(loose_views(loose@), hash@),
        res <= loose@.len(),
{
    let mut i: usize = 0;
    while i < loose.len() && !loose[i].hash.same(hash)
        invariant
            i <= loose@.len(),
            forall|j: int| 0 <= j < i ==> (#[trigger] loose_views(loose@)[j]).hash != hash@,
        decreases loose@.len() - i,
    {
        i += 1;
    }
    proof {
        lemma_loose_index(loose_views(loose@), hash@, i as int);
    }
    i
}

/// The store.
#[derive(Debug)]
pub struct Repo {
    objs: Vec<LooseObject>,
    packs: Vec<Pack>,
}

/// The store as mathematics: the loose objects, and the packs in the
/// order in which they were attached.
pub struct RepoView {
    pub loose: Seq<LooseView>,
    pub packs: Seq<crate::pack::PackView>,
}

impl View for Repo {
    type V = RepoView;

    closed spec fn view(&self) -> RepoView {
        RepoView { loose: loose_views(self.objs@), packs: crate::pack::pack_views(self.packs@) }
    }
}

/// No two loose objects are under the same hash.
pub open spec fn distinct(loose: Seq<LooseView>) -> bool {
    forall|i: int, j: int|
        0 <= i < j < loose.len() ==> (#[trigger] loose[i]).hash != (#[trigger] loose[j]).hash
}

/// What holds of every store: no two loose objects are under the same hash.
pub open spec fn wf_repo(r: RepoView) -> bool {
    distinct(r.loose)
}

/// Putting an object under a hash keeps the hashes distinct.
pub proof fn lemma_put_distinct(loose: Seq<LooseView>, h: Seq<u8>, obj: ObjectView)
    requires
        distinct(loose),
    ensures
        distinct(loose_put(loose, h, obj)),
{
    let after = loose_put(loose, h, obj);
    let at = loose_index(loose, h);
    lemma_loose_index_bounds(loose, h);
    assert forall|i: int, j: int| 0 <= i < j < after.len() implies (#[trigger] after[i]).hash != (
    #[trigger] after[j]).hash by {
        if at < loose.len() {
            if i != at && j != at {
                assert(after[i] == loose[i] && after[j] == loose[j]);
            } else if i == at {
                assert(after[j] == loose[j]);
                assert(loose[at].hash != loose[j].hash);
            } else {
                assert(after[i] == loose[i]);
                assert(loose[i].hash != loose[at].hash);
            }
        } else {
            if j < loose.len() {
                assert(after[i] == loose[i] && after[j] == loose[j]);
            } else {
                assert(after[i] == loose[i]);
            }
        }
    }
}

/// The loose objects after `obj` was put under `h`: in the place of the
/// first object under `h`, or at the end where there was none.
pub open spec fn loose_put(loose: Seq<LooseView>, h: Seq<u8>, obj: ObjectView) -> Seq<LooseView> {
    let i = loose_index(loose, h);
    if i < loose.len() {
        loose.update(i, LooseView { hash: h, obj })
    } else {
        loose.push(LooseView { hash: h, obj })
    }
}

/// After an object was put under `h`, `h` gives that object, and every
/// other hash gives what it gave before.
pub proof fn lemma_loose_put(loose: Seq<LooseView>, h: Seq<u8>, obj: ObjectView, k: Seq<u8>)
    ensures
        loose_lookup(loose_put(loose, h, obj), k) == if k == h {
            Some(obj)
        } else {
            loose_lookup(loose, k)
        },
{
    let after = loose_put(loose, h, obj);
    let i = loose_index(loose, h);
    let j = loose_index(loose, k);
    lemma_loose_index_bounds(loose, h);
    lemma_loose_index_bounds(loose, k);
    if k == h {
        assert forall|x: int| 0 <= x < i implies (#[trigger] after[x]).hash != h by {
            assert(after[x] == loose[x]);
        }
        lemma_loose_index(after, h, i);
    } else {
        assert forall|x: int| 0 <= x < j implies (#[trigger] after[x]).hash != k by {
            if x != i {
                assert(after[x] == loose[x]);
            }
        }
        if j < loose.len() {
            assert(after[j] == loose[j]);
            lemma_loose_index(after, k, j);
        } else {
            assert forall|x: int| 0 <= x < after.len() implies (#[trigger] after[x]).hash != k by {
                if x < loose.len() && x != i {
                    assert(after[x] == loose[x]);
                }
            }
            lemma_loose_index(after, k, after.len() as int);
        }
    }
}

/// Puts an object under its hash: in the place of the first object
/// under that hash, or at the end where there is none.
fn put(objs: &mut Vec<LooseObject>, hash: crate::object::Hash, obj: Object)
    ensures
        loose_views(final(objs)@) == loose_put(loose_views(old(objs)@), hash@, obj@),
{
    let i = find_loose(objs.as_slice(), &hash);
    let ghost before = loose_views(objs@);
    let ghost view = LooseView { hash: hash@, obj: obj@ };
    if i < objs.len() {
        objs.set(i, LooseObject { hash, obj });
        assert(loose_views(objs@) =~= before.update(i as int, view));
    } else {
        objs.push(LooseObject { hash, obj });
        assert(loose_views(objs@) =~= before.push(view));
    }
}

impl Repo {
    #[verifier::type_invariant]
    spec fn well_formed(self) -> bool {
        wf_repo(self@)
    }

    /// An empty store.
    pub fn new() -> (res: Repo)
        ensures
            res@.loose.len() == 0,
            res@.packs.len() == 0,
            wf_repo(res@),
    {
        Repo { objs: Vec::new(), packs: Vec::new() }
    }

    /// Puts `obj` under `hash` among the loose objects.
    fn file(&mut self, hash: crate::object::Hash, obj: Object)
        ensures
            final(self)@.loose == loose_put(old(self)@.loose, hash@, obj@),
            final(self)@.packs == old(self)@.packs,
            wf_repo(final(self)@),
    {
        proof {
            use_type_invariant(&*self);
            lemma_put_distinct(self@.loose, hash@, obj@);
        }
        let mut objs: Vec<LooseObject> = Vec::new();
        assert(loose_views(objs@) =~= Seq::<LooseView>::empty());
        std::mem::swap(&mut self.objs, &mut objs);
        put(&mut objs, hash, obj);
        std::mem::swap(&mut self.objs, &mut objs);
    }

    /// Puts an object among the loose objects, under its hash, in the
    /// place of what was under that hash before; gives the hash.
    pub fn add(&mut self, obj: Object) -> (res: crate::object::Hash)
        ensures
            res@ == crate::object::sha1_of(crate::format::canonical(obj@)),
            final(self)@.loose == loose_put(old(self)@.loose, res@, obj@),
            final(self)@.packs == old(self)@.packs,
            wf_repo(final(self)@),
    {
        let hash = obj.hash();
        self.file(hash, obj);
        hash
    }

    /// Decodes a loose object and puts it among the loose objects;
    /// gives its hash. Where the bytes do not decode, the store stays
    /// as it is.
    pub fn add_loose(&mut self, compressed: &[u8]) -> (res: Result<crate::object::Hash, Error>)
        ensures
            match crate::object::spec_decode_loose(compressed@) {
                Ok((h, obj)) => res matches Ok(hash) && hash@ == h && final(self)@.loose
                    == loose_put(old(self)@.loose, h, obj),
                Err(e) => res matches Err(f) && f == e && final(self)@.loose == old(self)@.loose,
            },
            final(self)@.packs == old(self)@.packs,
            wf_repo(final(self)@),
    {
        proof {
            use_type_invariant(&*self);
        }
        let (hash, obj) = match crate::object::deflate(compressed) {
            Ok(x) => x,
            Err(e) => {
                return Err(e);
            },
        };
        self.file(hash, obj);
        Ok(hash)
    }

    /// Attaches a pack, after those attached before.
    pub fn add_pack(&mut self, pack: Pack)
        ensures
            final(self)@.packs == old(self)@.packs.push(pack@),
            final(self)@.loose == old(self)@.loose,
            wf_repo(final(self)@),
    {
        proof {
            use_type_invariant(&*self);
        }
        let ghost before = crate::pack::pack_views(self.packs@);
        let mut packs: Vec<Pack> = Vec::new();
        std::mem::swap(&mut self.packs, &mut packs);
        packs.push(pack);
        assert(crate::pack::pack_views(packs@) =~= before.push(pack@));
        std::mem::swap(&mut self.packs, &mut packs);
    }

    /// The number of loose objects.
    pub fn loose_count(&self) -> (res: usize)
        ensures
            res == self@.loose.len(),
    {
        self.objs.len()
    }

    /// Loose object `i`, in the order in which the hashes came.
    pub fn loose_object(&self, i: usize) -> (res: Option<&LooseObject>)
        ensures
            i < self@.loose.len() ==> (res matches Some(l) && l@ == self@.loose[i as int]),
            i >= self@.loose.len() ==> res is None,
    {
        if i < self.objs.len() {
            Some(&self.objs[i])
        } else {
            None
        }
    }

    /// The number of packs.
    pub fn pack_count(&self) -> (res: usize)
        ensures
            res == self@.packs.len(),
    {
        self.packs.len()
    }

    /// Gets the object under `hash`: the loose one where there is one,
    /// else what the first pack that holds the hash gives. A hash that
    /// the store does not hold gives nothing, and no failure.
    pub fn get(&self, hash: crate::object::Hash) -> (res: Result<Option<Object>, Error>)
        ensures
            crate::pack::agrees_some(
                res,
                crate::pack::spec_get_object(self@.loose, self@.packs, hash@),
            ),
            crate::pack::nowhere(self@.loose, self@.packs, hash@) ==> res matches Ok(None),
            wf_repo(self@),
    {
        proof {
            use_type_invariant(self);
            if crate::pack::nowhere(self@.loose, self@.packs, hash@) {
                crate::pack::lemma_missing_hash(self@.loose, self@.packs, hash@);
            }
        }
        crate::pack::get_object(self.objs.as_slice(), self.packs.as_slice(), &hash)
    }
}

} // verus!
