//! The index of a repository: which packs hold which snapshots.

use vstd::prelude::*;
use vstd::seq_lib::lemma_seq_contains_after_push;

use crate::order::{lemma_bytes_before_transitive, Standing};
use crate::pack::{pack_names, PackId, PackName, SnapshotId, SnapshotName};

verus! {

/// The packs of each tag.
pub type TagMap = Map<Seq<char>, Seq<PackName>>;

/// Tags with their packs.
pub open spec fn tag_pairs(v: Seq<(String, Vec<PackId>)>) -> Seq<(Seq<char>, Seq<PackName>)> {
    Seq::new(v.len(), |i: int| (v[i].0@, pack_names(v[i].1@)))
}

/// The map with the given pairs; later pairs replace earlier ones.
pub open spec fn tag_map(pairs: Seq<(Seq<char>, Seq<PackName>)>) -> TagMap
    decreases pairs.len(),
{
    if pairs.len() == 0 {
        Map::empty()
    } else {
        tag_map(pairs.drop_last()).insert(pairs.last().0, pairs.last().1)
    }
}

/// The packs of a tag; none, if the map does not have it.
pub open spec fn packs_of(m: TagMap, tag: Seq<char>) -> Seq<PackName> {
    if m.contains_key(tag) {
        m[tag]
    } else {
        Seq::empty()
    }
}

/// The map after a snapshot was added to it.
pub open spec fn with_snapshot(m: TagMap, id: SnapshotName) -> TagMap {
    m.insert(id.tag, packs_of(m, id.tag).push(id.pack))
}

/// The pack has some snapshot.
pub open spec fn is_available(m: TagMap, pack: PackName) -> bool {
    exists|tag: Seq<char>| #[trigger] m.contains_key(tag) && m[tag].contains(pack)
}

/// Each pack comes before those that follow it.
pub open spec fn packs_increasing(v: Seq<PackName>) -> bool {
    forall|x: int, y: int| 0 <= x < y < v.len() ==> (#[trigger] v[x]).before(#[trigger] v[y])
}

/// No tag occurs twice.
pub open spec fn distinct_tags(pairs: Seq<(Seq<char>, Seq<PackName>)>) -> bool {
    forall|i: int, j: int|
        0 <= i < j < pairs.len() ==> (#[trigger] pairs[i]).0 != (#[trigger] pairs[j]).0
}

/// Maps snapshots to the packs that hold them.
#[derive(Debug)]
pub struct RepositoryIndex {
    snapshots: Vec<(String, Vec<PackId>)>,
}

impl View for RepositoryIndex {
    type V = TagMap;

    closed spec fn view(&self) -> TagMap {
        tag_map(tag_pairs(self.snapshots@))
    }
}

proof fn lemma_pack_before_transitive(a: PackName, b: PackName, c: PackName)
    requires
        a.before(b),
        b.before(c),
    ensures
        a.before(c),
{
    match (a, b, c) {
        (PackName::Packed(x), PackName::Packed(y), PackName::Packed(z)) => {
            lemma_bytes_before_transitive(
                vstd::utf8::encode_utf8(x),
                vstd::utf8::encode_utf8(y),
                vstd::utf8::encode_utf8(z),
            );
        },
        _ => {},
    }
}

proof fn lemma_tag_map_keys(pairs: Seq<(Seq<char>, Seq<PackName>)>, tag: Seq<char>)
    ensures
        tag_map(pairs).contains_key(tag) <==> exists|i: int|
            0 <= i < pairs.len() && (#[trigger] pairs[i]).0 == tag,
    decreases pairs.len(),
{
    if pairs.len() > 0 {
        let init = pairs.drop_last();
        lemma_tag_map_keys(init, tag);
        if tag_map(init).contains_key(tag) {
            let i = choose|i: int| 0 <= i < init.len() && (#[trigger] init[i]).0 == tag;
            assert(pairs[i].0 == tag);
        }
        if exists|i: int| 0 <= i < pairs.len() && (#[trigger] pairs[i]).0 == tag {
            let i = choose|i: int| 0 <= i < pairs.len() && (#[trigger] pairs[i]).0 == tag;
            if i < init.len() {
                assert(init[i].0 == tag);
            }
        }
    }
}

proof fn lemma_tag_map_value(pairs: Seq<(Seq<char>, Seq<PackName>)>, i: int)
    requires
        distinct_tags(pairs),
        0 <= i < pairs.len(),
    ensures
        tag_map(pairs).contains_key(pairs[i].0),
        tag_map(pairs)[pairs[i].0] == pairs[i].1,
    decreases pairs.len(),
{
    if i < pairs.len() - 1 {
        let init = pairs.drop_last();
        assert(distinct_tags(init)) by {
            assert forall|x: int, y: int| 0 <= x < y < init.len() implies (
            #[trigger] init[x]).0 != (#[trigger] init[y]).0 by {
                assert(pairs[x].0 != pairs[y].0);
            }
        }
        lemma_tag_map_value(init, i);
        assert(init[i] == pairs[i]);
        assert(pairs[i].0 != pairs[pairs.len() - 1].0);
    }
}

/// Replacing the packs of one tag replaces its value in the map.
proof fn lemma_tag_map_update(
    pairs: Seq<(Seq<char>, Seq<PackName>)>,
    i: int,
    packs: Seq<PackName>,
)
    requires
        distinct_tags(pairs),
        0 <= i < pairs.len(),
    ensures
        distinct_tags(pairs.update(i, (pairs[i].0, packs))),
        tag_map(pairs.update(i, (pairs[i].0, packs))) == tag_map(pairs).insert(pairs[i].0, packs),
{
    let new = pairs.update(i, (pairs[i].0, packs));
    assert forall|x: int, y: int| 0 <= x < y < new.len() implies (#[trigger] new[x]).0 != (
    #[trigger] new[y]).0 by {
        assert(pairs[x].0 != pairs[y].0);
    }
    let m = tag_map(new);
    let n = tag_map(pairs).insert(pairs[i].0, packs);
    assert forall|t: Seq<char>| m.contains_key(t) <==> n.contains_key(t) by {
        lemma_tag_map_keys(new, t);
        lemma_tag_map_keys(pairs, t);
        if m.contains_key(t) {
            let k = choose|k: int| 0 <= k < new.len() && (#[trigger] new[k]).0 == t;
            assert(pairs[k].0 == t);
        }
        if n.contains_key(t) && t != pairs[i].0 {
            let k = choose|k: int| 0 <= k < pairs.len() && (#[trigger] pairs[k]).0 == t;
            assert(new[k].0 == t);
        }
        assert(new[i].0 == pairs[i].0);
    }
    assert forall|t: Seq<char>| #[trigger] m.contains_key(t) implies m[t] == n[t] by {
        lemma_tag_map_keys(new, t);
        let k = choose|k: int| 0 <= k < new.len() && (#[trigger] new[k]).0 == t;
        lemma_tag_map_value(new, k);
        lemma_tag_map_value(pairs, k);
        if k != i {
            if k < i {
                assert(pairs[k].0 != pairs[i].0);
            } else {
                assert(pairs[i].0 != pairs[k].0);
            }
        }
    }
    assert(m =~= n);
}

impl RepositoryIndex {
    /// No tag is held twice.
    pub closed spec fn wf(&self) -> bool {
        distinct_tags(tag_pairs(self.snapshots@))
    }

    /// The index without any snapshot.
    pub fn new() -> (r: RepositoryIndex)
        ensures
            r.wf(),
            r@ == TagMap::empty(),
    {
        RepositoryIndex { snapshots: Vec::new() }
    }

    /// The position of a tag.
    fn position(&self, tag: &str) -> (r: Option<usize>)
        requires
            self.wf(),
        ensures
            match r {
                Some(i) => {
                    &&& i < self.snapshots@.len()
                    &&& self.snapshots@[i as int].0@ == tag@
                    &&& self@.contains_key(tag@)
                    &&& self@[tag@] == pack_names(self.snapshots@[i as int].1@)
                },
                None => !self@.contains_key(tag@),
            },
    {
        let ghost pairs = tag_pairs(self.snapshots@);
        let wanted = tag.to_owned();
        let mut i: usize = 0;
        while i < self.snapshots.len()
            invariant
                self.wf(),
                wanted@ == tag@,
                pairs == tag_pairs(self.snapshots@),
                i <= self.snapshots@.len(),
                forall|j: int| 0 <= j < i ==> (#[trigger] pairs[j]).0 != tag@,
            decreases self.snapshots.len() - i,
        {
            assert(pairs[i as int].0 == self.snapshots@[i as int].0@);
            if self.snapshots[i].0 == wanted {
                proof {
                    lemma_tag_map_value(pairs, i as int);
                }
                return Some(i);
            }
            i = i + 1;
        }
        proof {
            lemma_tag_map_keys(pairs, tag@);
        }
        None
    }

    /// The packs that hold the snapshot.
    pub fn find_packs(&self, snapshot: &str) -> (r: &[PackId])
        requires
            self.wf(),
        ensures
            pack_names(r@) == packs_of(self@, snapshot@),
    {
        match self.position(snapshot) {
            Some(i) => self.snapshots[i].1.as_slice(),
            None => {
                let r: &[PackId] = &[];
                assert(pack_names(r@) =~= Seq::<PackName>::empty());
                r
            },
        }
    }

    /// Gives a tag its packs, in place of those that it had.
    fn insert(&mut self, tag: &str, packs: Vec<PackId>)
        requires
            old(self).wf(),
        ensures
            final(self).wf(),
            final(self)@ == old(self)@.insert(tag@, pack_names(packs@)),
    {
        let ghost pairs = tag_pairs(self.snapshots@);
        let ghost names = pack_names(packs@);
        match self.position(tag) {
            Some(i) => {
                self.snapshots[i].1 = packs;
                proof {
                    lemma_tag_map_update(pairs, i as int, names);
                    assert(tag_pairs(self.snapshots@) =~= pairs.update(i as int, (tag@, names)));
                }
            },
            None => {
                self.snapshots.push((tag.to_owned(), packs));
                proof {
                    let new = tag_pairs(self.snapshots@);
                    assert(new =~= pairs.push((tag@, names)));
                    assert(new.drop_last() =~= pairs);
                    assert forall|x: int, y: int| 0 <= x < y < new.len() implies (
                    #[trigger] new[x]).0 != (#[trigger] new[y]).0 by {
                        assert(new[x] == pairs[x]);
                        if y == pairs.len() {
                            lemma_tag_map_keys(pairs, tag@);
                            assert(pairs[x].0 != tag@);
                        } else {
                            assert(new[y] == pairs[y]);
                        }
                    }
                }
            },
        }
    }

    /// Adds a snapshot to the index.
    pub fn add_snapshot(&mut self, snapshot: &SnapshotId)
        requires
            old(self).wf(),
        ensures
            final(self).wf(),
            final(self)@ == with_snapshot(old(self)@, snapshot@),
    {
        let mut packs = copy_packs(self.find_packs(snapshot.tag()));
        let ghost before = pack_names(packs@);
        packs.push(snapshot.pack().clone());
        assert(pack_names(packs@) =~= before.push(snapshot@.pack));
        self.insert(snapshot.tag(), packs);
    }

    /// The index with these tags and their packs; later ones replace earlier
    /// ones.
    pub fn from_snapshots(snapshots: Vec<(String, Vec<PackId>)>) -> (r: RepositoryIndex)
        ensures
            r.wf(),
            r@ == tag_map(tag_pairs(snapshots@)),
    {
        let ghost pairs = tag_pairs(snapshots@);
        let mut r = RepositoryIndex::new();
        let mut i: usize = 0;
        assert(pairs.take(0) =~= Seq::<(Seq<char>, Seq<PackName>)>::empty());
        while i < snapshots.len()
            invariant
                pairs == tag_pairs(snapshots@),
                i <= snapshots@.len(),
                r.wf(),
                r@ == tag_map(pairs.take(i as int)),
            decreases snapshots.len() - i,
        {
            assert(pairs.take(i + 1).drop_last() =~= pairs.take(i as int));
            assert(pairs.take(i + 1).last() == pairs[i as int]);
            r.insert(snapshots[i].0.as_str(), copy_packs(snapshots[i].1.as_slice()));
            i = i + 1;
        }
        assert(pairs.take(pairs.len() as int) =~= pairs);
        r
    }

    /// The tags and their packs.
    pub fn snapshots(&self) -> (r: &[(String, Vec<PackId>)])
        requires
            self.wf(),
        ensures
            distinct_tags(tag_pairs(r@)),
            tag_map(tag_pairs(r@)) == self@,
    {
        self.snapshots.as_slice()
    }

    /// The packs with at least one snapshot, in order.
    pub fn available_packs(&self) -> (r: Vec<PackId>)
        requires
            self.wf(),
        ensures
            packs_increasing(pack_names(r@)),
            forall|p: PackName| #[trigger] pack_names(r@).contains(p) <==> is_available(self@, p),
    {
        let ghost pairs = tag_pairs(self.snapshots@);
        let mut r: Vec<PackId> = Vec::new();
        let mut i: usize = 0;
        while i < self.snapshots.len()
            invariant
                self.wf(),
                pairs == tag_pairs(self.snapshots@),
                i <= self.snapshots@.len(),
                packs_increasing(pack_names(r@)),
                forall|p: PackName| #[trigger]
                    pack_names(r@).contains(p) <==> exists|k: int|
                        0 <= k < i && (#[trigger] pairs[k]).1.contains(p),
            decreases self.snapshots.len() - i,
        {
            let packs = self.snapshots[i].1.as_slice();
            let ghost names = pack_names(packs@);
            let ghost before = pack_names(r@);
            assert(pairs[i as int].1 == names);
            let mut j: usize = 0;
            while j < packs.len()
                invariant
                    names == pack_names(packs@),
                    j <= packs@.len(),
                    packs_increasing(pack_names(r@)),
                    forall|p: PackName| #[trigger]
                        pack_names(r@).contains(p) <==> before.contains(p) || names.take(
                            j as int,
                        ).contains(p),
                decreases packs.len() - j,
            {
                let ghost mid = pack_names(r@);
                insert_pack(&mut r, &packs[j]);
                proof {
                    assert(names.take(j + 1) =~= names.take(j as int).push(names[j as int]));
                    assert forall|p: PackName| #[trigger]
                        pack_names(r@).contains(p) <==> before.contains(p) || names.take(
                            j + 1,
                        ).contains(p) by {
                        assert(mid.contains(p) <==> before.contains(p) || names.take(
                            j as int,
                        ).contains(p));
                        lemma_seq_contains_after_push(names.take(j as int), names[j as int], p);
                    }
                }
                j = j + 1;
            }
            proof {
                assert(names.take(names.len() as int) =~= names);
                assert forall|p: PackName| #[trigger]
                    pack_names(r@).contains(p) <==> exists|k: int|
                        0 <= k < i + 1 && (#[trigger] pairs[k]).1.contains(p) by {
                    assert(pairs[i as int].1.contains(p) <==> names.contains(p));
                    assert(before.contains(p) <==> exists|k: int|
                        0 <= k < i && (#[trigger] pairs[k]).1.contains(p));
                }
            }
            i = i + 1;
        }
        proof {
            assert forall|p: PackName| #[trigger] pack_names(r@).contains(p) <==> is_available(
                self@,
                p,
            ) by {
                if pack_names(r@).contains(p) {
                    let k = choose|k: int|
                        0 <= k < pairs.len() && (#[trigger] pairs[k]).1.contains(p);
                    lemma_tag_map_value(pairs, k);
                    assert(self@.contains_key(pairs[k].0));
                }
                if is_available(self@, p) {
                    let t = choose|t: Seq<char>| #[trigger]
                        self@.contains_key(t) && self@[t].contains(p);
                    lemma_tag_map_keys(pairs, t);
                    let k = choose|k: int| 0 <= k < pairs.len() && (#[trigger] pairs[k]).0 == t;
                    lemma_tag_map_value(pairs, k);
                    assert(pairs[k].1.contains(p));
                }
            }
        }
        r
    }
}

impl Default for RepositoryIndex {
    fn default() -> (r: Self)
        ensures
            r.wf(),
            r@ == TagMap::empty(),
    {
        RepositoryIndex::new()
    }
}

/// A copy of a list of packs.
fn copy_packs(packs: &[PackId]) -> (r: Vec<PackId>)
    ensures
        pack_names(r@) == pack_names(packs@),
{
    let mut r: Vec<PackId> = Vec::new();
    let mut i: usize = 0;
    while i < packs.len()
        invariant
            i <= packs@.len(),
            pack_names(r@) =~= pack_names(packs@).take(i as int),
        decreases packs.len() - i,
    {
        let ghost before = pack_names(r@);
        r.push(packs[i].clone());
        assert(pack_names(r@) =~= before.push(packs@[i as int]@));
        i = i + 1;
    }
    assert(pack_names(packs@).take(packs@.len() as int) =~= pack_names(packs@));
    r
}

/// Inserts a pack at its place, unless it is there already.
fn insert_pack(packs: &mut Vec<PackId>, pack: &PackId)
    requires
        packs_increasing(pack_names(old(packs)@)),
    ensures
        packs_increasing(pack_names(final(packs)@)),
        forall|p: PackName| #[trigger]
            pack_names(final(packs)@).contains(p) <==> pack_names(old(packs)@).contains(p) || p
                == pack@,
{
    let ghost before = pack_names(packs@);
    let mut i: usize = 0;
    while i < packs.len()
        invariant
            i <= packs@.len(),
            *packs == *old(packs),
            before == pack_names(packs@),
            packs_increasing(before),
            forall|x: int| 0 <= x < i ==> (#[trigger] before[x]).before(pack@),
        decreases packs.len() - i,
    {
        assert(before[i as int] == packs@[i as int]@);
        match packs[i].compare(pack) {
            Standing::Before => {
                i = i + 1;
            },
            Standing::Same => {
                assert(before.contains(pack@));
                return ;
            },
            Standing::After => {
                packs.insert(i, pack.clone());
                proof {
                    lemma_pack_inserted(before, i as int, pack@);
                    assert(pack_names(packs@) =~= before.insert(i as int, pack@));
                }
                return ;
            },
        }
    }
    packs.push(pack.clone());
    proof {
        lemma_pack_inserted(before, i as int, pack@);
        assert(pack_names(packs@) =~= before.insert(i as int, pack@));
    }
}

proof fn lemma_pack_inserted(v: Seq<PackName>, i: int, pack: PackName)
    requires
        packs_increasing(v),
        0 <= i <= v.len(),
        forall|x: int| 0 <= x < i ==> (#[trigger] v[x]).before(pack),
        i < v.len() ==> pack.before(v[i]),
    ensures
        packs_increasing(v.insert(i, pack)),
        forall|p: PackName| #[trigger]
            v.insert(i, pack).contains(p) <==> v.contains(p) || p == pack,
{
    let w = v.insert(i, pack);
    assert forall|x: int, y: int| 0 <= x < y < w.len() implies (#[trigger] w[x]).before(
        #[trigger] w[y],
    ) by {
        let vx = if x < i {
            x
        } else {
            x - 1
        };
        let vy = if y < i {
            y
        } else {
            y - 1
        };
        if x == i {
            if vy > i {
                assert(v[i].before(v[vy]));
                lemma_pack_before_transitive(pack, v[i], v[vy]);
            }
        } else if y == i {
            assert(v[x].before(pack));
        } else {
            assert(v[vx].before(v[vy]));
        }
    }
    assert forall|p: PackName| #[trigger] w.contains(p) <==> v.contains(p) || p == pack by {
        if w.contains(p) {
            let k = choose|k: int| 0 <= k < w.len() && w[k] == p;
            if k < i {
                assert(v[k] == p);
            } else if k > i {
                assert(v[k - 1] == p);
            }
        }
        if v.contains(p) {
            let k = choose|k: int| 0 <= k < v.len() && v[k] == p;
            if k < i {
                assert(w[k] == p);
            } else {
                assert(w[k + 1] == p);
            }
        }
        assert(w[i] == pack);
    }
}

/// The order of the tags does not matter: tags that differ, with their packs,
/// make the same map in every order.
pub proof fn law_order_of_tags_does_not_matter(
    a: Seq<(Seq<char>, Seq<PackName>)>,
    b: Seq<(Seq<char>, Seq<PackName>)>,
)
    requires
        distinct_tags(a),
        a.to_multiset() == b.to_multiset(),
    ensures
        distinct_tags(b),
        tag_map(a) == tag_map(b),
{
    assert forall|v: (Seq<char>, Seq<PackName>)| a.contains(v) <==> b.contains(v) by {
        vstd::seq_lib::to_multiset_contains(a, v);
        vstd::seq_lib::to_multiset_contains(b, v);
    }
    assert(a.no_duplicates()) by {
        assert forall|i: int, j: int| 0 <= i < a.len() && 0 <= j < a.len() && i != j implies a[i]
            != a[j] by {
            if i < j {
                assert(a[i].0 != a[j].0);
            } else {
                assert(a[j].0 != a[i].0);
            }
        }
    }
    a.lemma_multiset_has_no_duplicates();
    b.lemma_multiset_has_no_duplicates_conv();
    assert forall|i: int, j: int| 0 <= i < j < b.len() implies (#[trigger] b[i]).0 != (
    #[trigger] b[j]).0 by {
        if b[i].0 == b[j].0 {
            assert(b.contains(b[i]) && b.contains(b[j]));
            let x = choose|x: int| 0 <= x < a.len() && a[x] == b[i];
            let y = choose|y: int| 0 <= y < a.len() && a[y] == b[j];
            if x < y {
                assert(a[x].0 != a[y].0);
            } else if y < x {
                assert(a[y].0 != a[x].0);
            }
        }
    }
    let m = tag_map(a);
    let n = tag_map(b);
    assert forall|t: Seq<char>| (#[trigger] m.contains_key(t) <==> n.contains_key(t)) && (
    m.contains_key(t) ==> m[t] == n[t]) by {
        lemma_tag_map_keys(a, t);
        lemma_tag_map_keys(b, t);
        if m.contains_key(t) {
            let x = choose|x: int| 0 <= x < a.len() && (#[trigger] a[x]).0 == t;
            assert(a.contains(a[x]));
            let y = choose|y: int| 0 <= y < b.len() && b[y] == a[x];
            assert(b[y].0 == t);
            lemma_tag_map_value(a, x);
            lemma_tag_map_value(b, y);
        }
        if n.contains_key(t) {
            let y = choose|y: int| 0 <= y < b.len() && (#[trigger] b[y]).0 == t;
            assert(b.contains(b[y]));
            let x = choose|x: int| 0 <= x < a.len() && a[x] == b[y];
            assert(a[x].0 == t);
        }
    }
    assert(m =~= n);
}

/// The packs of the snapshots with the tag, in order.
pub open spec fn packs_with_tag(ids: Seq<SnapshotName>, tag: Seq<char>) -> Seq<PackName> {
    ids.filter(|id: SnapshotName| id.tag == tag).map_values(|id: SnapshotName| id.pack)
}

/// Some snapshot has the tag.
pub open spec fn some_has_tag(ids: Seq<SnapshotName>, tag: Seq<char>) -> bool {
    exists|i: int| 0 <= i < ids.len() && (#[trigger] ids[i]).tag == tag
}

/// The map from the tags of the snapshots to their packs.
pub open spec fn index_of(ids: Seq<SnapshotName>) -> TagMap {
    Map::new(
        |tag: Seq<char>| some_has_tag(ids, tag),
        |tag: Seq<char>| packs_with_tag(ids, tag),
    )
}

/// Adding a snapshot to the index of some snapshots gives the index of all of
/// them.
pub proof fn law_add_snapshot_extends_index(ids: Seq<SnapshotName>, id: SnapshotName)
    ensures
        with_snapshot(index_of(ids), id) == index_of(ids.push(id)),
{
    let all = ids.push(id);
    let m = with_snapshot(index_of(ids), id);
    let n = index_of(all);
    assert forall|t: Seq<char>| m.contains_key(t) <==> n.contains_key(t) by {
        if some_has_tag(ids, t) {
            let i = choose|i: int| 0 <= i < ids.len() && (#[trigger] ids[i]).tag == t;
            assert(all[i].tag == t);
        }
        if some_has_tag(all, t) && t != id.tag {
            let i = choose|i: int| 0 <= i < all.len() && (#[trigger] all[i]).tag == t;
            assert(ids[i].tag == t);
        }
        assert(all[ids.len() as int].tag == id.tag);
    }
    assert forall|t: Seq<char>| #[trigger] m.contains_key(t) implies m[t] == n[t] by {
        let pred = |id: SnapshotName| id.tag == t;
        ids.lemma_filter_push(id, pred);
        if t == id.tag {
            if !some_has_tag(ids, t) {
                assert forall|i: int| 0 <= i < ids.len() implies !pred(#[trigger] ids[i]) by {}
                lemma_filter_none(ids, t);
            }
            assert(packs_with_tag(all, t) =~= packs_of(index_of(ids), t).push(id.pack));
        } else {
            assert(packs_with_tag(all, t) =~= packs_with_tag(ids, t));
        }
    }
    assert(m =~= n);
}

proof fn lemma_filter_none(ids: Seq<SnapshotName>, tag: Seq<char>)
    requires
        !some_has_tag(ids, tag),
    ensures
        packs_with_tag(ids, tag) == Seq::<PackName>::empty(),
{
    let pred = |id: SnapshotName| id.tag == tag;
    let kept = ids.filter(pred);
    if kept.len() > 0 {
        ids.lemma_filter_pred(pred, 0);
        assert(kept.contains(kept[0]));
        ids.lemma_filter_contains_rev(pred, kept[0]);
        let i = choose|i: int| 0 <= i < ids.len() && ids[i] == kept[0];
        assert(ids[i].tag == tag);
    }
    assert(packs_with_tag(ids, tag) =~= Seq::<PackName>::empty());
}

/// The index names a pack for a tag exactly if that snapshot is one of those
/// it was made of.
pub proof fn law_index_names_packs_of_snapshots(
    ids: Seq<SnapshotName>,
    pack: PackName,
    tag: Seq<char>,
)
    ensures
        packs_of(index_of(ids), tag).contains(pack) <==> ids.contains(SnapshotName { pack, tag }),
{
    let id = SnapshotName { pack, tag };
    let pred = |id: SnapshotName| id.tag == tag;
    let kept = ids.filter(pred);
    let packs = packs_with_tag(ids, tag);
    if ids.contains(id) {
        let i = choose|i: int| 0 <= i < ids.len() && ids[i] == id;
        assert(ids[i].tag == tag);
        ids.lemma_filter_contains(pred, i);
        let k = choose|k: int| 0 <= k < kept.len() && kept[k] == id;
        assert(packs[k] == pack);
        assert(index_of(ids).contains_key(tag));
    }
    if packs_of(index_of(ids), tag).contains(pack) {
        let k = choose|k: int| 0 <= k < packs.len() && packs[k] == pack;
        ids.lemma_filter_pred(pred, k);
        assert(kept.contains(kept[k]));
        ids.lemma_filter_contains_rev(pred, kept[k]);
        assert(kept[k] == id);
    }
}

/// The available packs are those of the snapshots that the index was made of.
pub proof fn law_available_packs_have_snapshots(ids: Seq<SnapshotName>, pack: PackName)
    ensures
        is_available(index_of(ids), pack) <==> exists|i: int|
            0 <= i < ids.len() && (#[trigger] ids[i]).pack == pack,
{
    let m = index_of(ids);
    if is_available(m, pack) {
        let t = choose|t: Seq<char>| #[trigger] m.contains_key(t) && m[t].contains(pack);
        law_index_names_packs_of_snapshots(ids, pack, t);
        let i = choose|i: int|
            0 <= i < ids.len() && ids[i] == (SnapshotName { pack, tag: t });
        assert(ids[i].pack == pack);
    }
    if exists|i: int| 0 <= i < ids.len() && (#[trigger] ids[i]).pack == pack {
        let i = choose|i: int| 0 <= i < ids.len() && (#[trigger] ids[i]).pack == pack;
        let t = ids[i].tag;
        assert(ids.contains(SnapshotName { pack, tag: t })) by {
            assert(ids[i] == (SnapshotName { pack, tag: t }));
        }
        law_index_names_packs_of_snapshots(ids, pack, t);
        assert(m.contains_key(t));
    }
}

/// A snapshot that is added is found: its pack comes last in the packs of its
/// tag. The packs of other tags stay as they were, and no pack becomes
/// available but the one of the snapshot.
pub proof fn law_added_snapshot_is_found(
    m: TagMap,
    id: SnapshotName,
    tag: Seq<char>,
    pack: PackName,
)
    ensures
        with_snapshot(m, id).contains_key(tag) <==> m.contains_key(tag) || tag == id.tag,
        tag != id.tag ==> packs_of(with_snapshot(m, id), tag) == packs_of(m, tag),
        with_snapshot(m, id)[id.tag] == (if m.contains_key(id.tag) {
            m[id.tag].push(id.pack)
        } else {
            seq![id.pack]
        }),
        packs_of(m, tag) == (if m.contains_key(tag) {
            m[tag]
        } else {
            Seq::<PackName>::empty()
        }),
        is_available(with_snapshot(m, id), pack) <==> is_available(m, pack) || pack == id.pack,
        is_available(m, pack) <==> exists|t: Seq<char>| #[trigger]
            m.contains_key(t) && m[t].contains(pack),
{
    let n = with_snapshot(m, id);
    let before = packs_of(m, id.tag);
    assert(Seq::<PackName>::empty().push(id.pack) =~= seq![id.pack]);
    lemma_seq_contains_after_push(before, id.pack, pack);
    if is_available(n, pack) && pack != id.pack {
        let t = choose|t: Seq<char>| #[trigger] n.contains_key(t) && n[t].contains(pack);
        if t == id.tag {
            assert(before.contains(pack));
        }
        assert(m.contains_key(t));
    }
    if is_available(m, pack) {
        let t = choose|t: Seq<char>| #[trigger] m.contains_key(t) && m[t].contains(pack);
        assert(n.contains_key(t));
    }
    if pack == id.pack {
        assert(n.contains_key(id.tag));
    }
}

/// The index of snapshots, snapshot by snapshot: each one puts its pack behind
/// those that its tag has already.
pub proof fn law_index_snapshot_by_snapshot(ids: Seq<SnapshotName>, id: SnapshotName)
    ensures
        index_of(Seq::empty()) == TagMap::empty(),
        index_of(ids.push(id)) == index_of(ids).insert(
            id.tag,
            (if index_of(ids).contains_key(id.tag) {
                index_of(ids)[id.tag].push(id.pack)
            } else {
                seq![id.pack]
            }),
        ),
{
    assert(index_of(Seq::empty()) =~= TagMap::empty());
    law_add_snapshot_extends_index(ids, id);
    assert(Seq::<PackName>::empty().push(id.pack) =~= seq![id.pack]);
}

/// Of the packs that are given for a tag, the last ones count.
pub proof fn law_last_packs_count(
    pairs: Seq<(Seq<char>, Seq<PackName>)>,
    tag: Seq<char>,
    packs: Seq<PackName>,
)
    ensures
        tag_map(Seq::empty()) == TagMap::empty(),
        tag_map(pairs.push((tag, packs))) == tag_map(pairs).insert(tag, packs),
{
    assert(pairs.push((tag, packs)).drop_last() =~= pairs);
}

/// A list of tags with their packs is read in order, each pair as it is; packs
/// are in order if each comes before those that follow it, and tags are
/// distinct if no two are the same.
pub proof fn law_tag_pairs_keep_their_places(
    v: Seq<(String, Vec<PackId>)>,
    packs: Seq<PackName>,
    i: int,
    j: int,
)
    ensures
        tag_pairs(v).len() == v.len(),
        0 <= i < v.len() ==> tag_pairs(v)[i] == (v[i].0@, pack_names(v[i].1@)),
        packs_increasing(packs) && 0 <= i < j < packs.len() ==> packs[i].before(packs[j]),
        distinct_tags(tag_pairs(v)) && 0 <= i < j < v.len() ==> v[i].0@ != v[j].0@,
{
    if distinct_tags(tag_pairs(v)) && 0 <= i < j < v.len() {
        assert(tag_pairs(v)[i].0 != tag_pairs(v)[j].0);
    }
}

} // verus!
