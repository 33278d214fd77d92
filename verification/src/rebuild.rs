//! Rebuilding the index of a repository from the indexes of its packs.

use vstd::prelude::*;
use vstd::seq_lib::lemma_seq_contains_after_push;

use crate::constants::PACK_INDEX_EXTENSION;
use crate::error::{Error, IdError};
use crate::index::{
    index_of, is_available, law_add_snapshot_extends_index, law_available_packs_have_snapshots,
    law_index_names_packs_of_snapshots, packs_of, RepositoryIndex,
};
use crate::layout::{build_index_path, build_packs_path, index_path, packs_path, utf8};
use crate::pack::{
    law_allowed_snapshots, may_name_pack, PackId, PackName, SnapshotId, SnapshotName,
};
use crate::packidx::{has_tag, snapshot_infos, PackIndex, PackSnapshot, SnapshotInfo};
use crate::path::{join, join_path};
use crate::repository::{PackFile, Repository};

verus! {

/// The name ends with the extension of pack index files.
pub open spec fn has_index_extension(name: Seq<char>) -> bool {
    PACK_INDEX_EXTENSION@.is_suffix_of(name)
}

/// The name without the extension of pack index files and the character
/// before it.
pub open spec fn pack_name_of(file_name: Seq<char>) -> Seq<char> {
    file_name.take(file_name.len() - PACK_INDEX_EXTENSION@.len() - 1)
}

/// Whether a directory entry is a pack index: it is a file, its name is valid
/// unicode and has the extension.
pub fn is_pack_index(is_file: bool, file_name: Option<&str>) -> (r: bool)
    ensures
        r == (is_file && file_name is Some && has_index_extension(file_name->0@)),
{
    match file_name {
        None => false,
        Some(name) => {
            if !is_file {
                return false;
            }
            let n = name.unicode_len();
            let m = PACK_INDEX_EXTENSION.unicode_len();
            if n < m {
                return false;
            }
            let end = name.substring_char(n - m, n).to_owned();
            assert(end@ == name@.subrange(n - m, n as int));
            end == PACK_INDEX_EXTENSION.to_owned()
        },
    }
}

/// The name of the pack whose index has this file name.
pub fn pack_name(file_name: &str) -> (r: String)
    requires
        file_name@.len() > PACK_INDEX_EXTENSION@.len(),
    ensures
        r@ == pack_name_of(file_name@),
{
    let n = file_name.unicode_len();
    let m = PACK_INDEX_EXTENSION.unicode_len();
    let r = file_name.substring_char(0, n - m - 1).to_owned();
    assert(r@ =~= pack_name_of(file_name@));
    r
}

/// The file name of the index of a pack.
pub open spec fn index_name_of(pack: Seq<char>) -> Seq<char> {
    pack.push('.') + PACK_INDEX_EXTENSION@
}

/// Where the index of a pack is.
pub fn pack_index_path(pack: &PackFile) -> (r: Vec<u8>)
    ensures
        r@ == join(packs_path(pack.repo_path@), utf8(index_name_of(pack.name@))),
{
    let mut name = pack.name.clone();
    proof {
        reveal_strlit(".");
    }
    name.append(".");
    assert(name@ =~= pack.name@.push('.'));
    name.append(PACK_INDEX_EXTENSION);
    join_path(build_packs_path(pack.repo_path.as_slice()).as_slice(), name.as_str().as_bytes())
}

/// The file where the index of a pack is looked for is taken for a pack index,
/// and for that of this pack.
pub proof fn law_pack_index_has_the_name_of_its_pack(pack: Seq<char>)
    ensures
        has_index_extension(index_name_of(pack)),
        pack_name_of(index_name_of(pack)) == pack,
{
    let name = index_name_of(pack);
    assert(name.subrange(name.len() - PACK_INDEX_EXTENSION@.len(), name.len() as int)
        =~= PACK_INDEX_EXTENSION@);
    assert(pack_name_of(name) =~= pack);
}

/// The list, extended by the snapshots of a pack, unless one of these is not
/// allowed.
pub open spec fn with_pack(
    ids: Seq<SnapshotName>,
    pack: PackName,
    snapshots: Seq<SnapshotInfo>,
) -> Result<Seq<SnapshotName>, Error>
    decreases snapshots.len(),
{
    if snapshots.len() == 0 {
        Ok(ids)
    } else {
        match with_pack(ids, pack, snapshots.drop_last()) {
            Err(e) => Err(e),
            Ok(ids) => match SnapshotName::checked(pack, snapshots.last().tag) {
                Err(e) => Err(Error::IdError(e)),
                Ok(id) => Ok(ids.push(id)),
            },
        }
    }
}

/// The snapshots of packs, from the file names and contents of their indexes,
/// up to the first failure.
pub open spec fn packed_snapshots(packs: Seq<(String, Result<PackIndex, Error>)>) -> Result<
    Seq<SnapshotName>,
    Error,
>
    decreases packs.len(),
{
    if packs.len() == 0 {
        Ok(Seq::empty())
    } else {
        match packed_snapshots(packs.drop_last()) {
            Err(e) => Err(e),
            Ok(ids) => match packs.last().1 {
                Err(e) => Err(e),
                Ok(index) => with_pack(
                    ids,
                    PackName::Packed(pack_name_of(packs.last().0@)),
                    index@,
                ),
            },
        }
    }
}

/// All snapshots: first those of the packs, then the unpacked ones.
pub open spec fn all_snapshots(
    packs: Seq<(String, Result<PackIndex, Error>)>,
    unpacked: Result<PackIndex, Error>,
) -> Result<Seq<SnapshotName>, Error> {
    match packed_snapshots(packs) {
        Err(e) => Err(e),
        Ok(ids) => match unpacked {
            Err(e) => Err(e),
            Ok(index) => with_pack(ids, PackName::Unpacked, index@),
        },
    }
}

/// Adds the snapshots of a pack to an index.
fn add_pack(index: &mut RepositoryIndex, pack: &PackId, snapshots: &[PackSnapshot]) -> (r: Result<
    (),
    Error,
>)
    requires
        old(index).wf(),
    ensures
        final(index).wf(),
        forall|ids: Seq<SnapshotName>|
            old(index)@ == #[trigger] index_of(ids) ==> match with_pack(
                ids,
                pack@,
                snapshot_infos(snapshots@),
            ) {
                Ok(all) => r is Ok && final(index)@ == index_of(all),
                Err(e) => r == Err::<(), Error>(e),
            },
{
    let ghost infos = snapshot_infos(snapshots@);
    let ghost start = index@;
    let mut i: usize = 0;
    assert(infos.take(0) =~= Seq::<SnapshotInfo>::empty());
    while i < snapshots.len()
        invariant
            infos == snapshot_infos(snapshots@),
            index.wf(),
            i <= snapshots@.len(),
            start == old(index)@,
            forall|ids: Seq<SnapshotName>|
                start == #[trigger] index_of(ids) ==> match with_pack(
                    ids,
                    pack@,
                    infos.take(i as int),
                ) {
                    Ok(all) => index@ == index_of(all),
                    Err(_) => false,
                },
        decreases snapshots.len() - i,
    {
        proof {
            assert(infos.take(i + 1).drop_last() =~= infos.take(i as int));
            assert(infos.take(i + 1).last() == snapshots@[i as int]@);
        }
        match SnapshotId::new(pack.clone(), snapshots[i].tag()) {
            Err(e) => {
                proof {
                    assert forall|ids: Seq<SnapshotName>|
                        start == #[trigger] index_of(ids) implies with_pack(
                        ids,
                        pack@,
                        infos,
                    ) == Err::<Seq<SnapshotName>, Error>(Error::IdError(e)) by {
                        lemma_with_pack_fails(ids, pack@, infos, i + 1);
                    }
                }
                return Err(Error::IdError(e));
            },
            Ok(id) => {
                index.add_snapshot(&id);
                proof {
                    assert forall|ids: Seq<SnapshotName>|
                        start == #[trigger] index_of(ids) implies match with_pack(
                        ids,
                        pack@,
                        infos.take(i + 1),
                    ) {
                        Ok(all) => index@ == index_of(all),
                        Err(_) => false,
                    } by {
                        let all = with_pack(ids, pack@, infos.take(i as int))->Ok_0;
                        law_add_snapshot_extends_index(all, id@);
                    }
                }
            },
        }
        i = i + 1;
    }
    assert(infos.take(infos.len() as int) =~= infos);
    Ok(())
}

/// A list that fails up to some snapshot fails in the same way with more.
proof fn lemma_with_pack_fails(
    ids: Seq<SnapshotName>,
    pack: PackName,
    snapshots: Seq<SnapshotInfo>,
    n: int,
)
    requires
        0 <= n <= snapshots.len(),
        with_pack(ids, pack, snapshots.take(n)) is Err,
    ensures
        with_pack(ids, pack, snapshots) == with_pack(ids, pack, snapshots.take(n)),
    decreases snapshots.len() - n,
{
    if n < snapshots.len() {
        assert(snapshots.take(n + 1).drop_last() =~= snapshots.take(n));
        lemma_with_pack_fails(ids, pack, snapshots, n + 1);
    } else {
        assert(snapshots.take(n) =~= snapshots);
    }
}

/// Packs that fail up to one of them fail in the same way with more.
proof fn lemma_packed_snapshots_fails(packs: Seq<(String, Result<PackIndex, Error>)>, n: int)
    requires
        0 <= n <= packs.len(),
        packed_snapshots(packs.take(n)) is Err,
    ensures
        packed_snapshots(packs) == packed_snapshots(packs.take(n)),
    decreases packs.len() - n,
{
    if n < packs.len() {
        assert(packs.take(n + 1).drop_last() =~= packs.take(n));
        lemma_packed_snapshots_fails(packs, n + 1);
    } else {
        assert(packs.take(n) =~= packs);
    }
}

/// An index file to be written at its place.
pub struct IndexWrite {
    pub contents: Vec<u8>,
    pub dest: Vec<u8>,
}

impl Repository {
    /// The file to write for the encoded index of the repository at
    /// `repo_dir`: the one that is read when the repository is opened.
    pub fn index_file(repo_dir: &[u8], encoded: Vec<u8>) -> (r: IndexWrite)
        ensures
            r.contents == encoded,
            r.dest@ == index_path(repo_dir@),
    {
        IndexWrite { contents: encoded, dest: build_index_path(repo_dir) }
    }

    /// Rebuilds the repository index, from the file names of the pack indexes
    /// with what was read from them, and from the index of the unpacked
    /// objects.
    pub fn update_index(
        packs: Vec<(String, Result<PackIndex, Error>)>,
        unpacked: Result<PackIndex, Error>,
    ) -> (r: Result<RepositoryIndex, Error>)
        requires
            forall|i: int|
                0 <= i < packs@.len() && packed_snapshots(packs@.take(i)) is Ok ==> (
                #[trigger] packs@[i]).0@.len() > PACK_INDEX_EXTENSION@.len(),
        ensures
            match all_snapshots(packs@, unpacked) {
                Ok(ids) => r is Ok && r->Ok_0.wf() && r->Ok_0@ == index_of(ids),
                Err(e) => r == Err::<RepositoryIndex, Error>(e),
            },
    {
        let ghost all = packs@;
        let mut index = RepositoryIndex::new();
        proof {
            assert(all.take(0) =~= Seq::<(String, Result<PackIndex, Error>)>::empty());
            assert(index@ =~= index_of(Seq::empty()));
        }
        for item in it: packs
            invariant
                it.seq() == all,
                forall|i: int|
                    0 <= i < all.len() && packed_snapshots(all.take(i)) is Ok ==> (
                    #[trigger] all[i]).0@.len() > PACK_INDEX_EXTENSION@.len(),
                index.wf(),
                packed_snapshots(all.take(it.index())) is Ok,
                index@ == index_of(packed_snapshots(all.take(it.index()))->Ok_0),
        {
            let ghost i = it.index();
            assert(item == all[i]);
            proof {
                assert(all.take(i + 1).drop_last() =~= all.take(i));
                assert(all.take(i + 1).last() == all[i]);
            }
            let pack = PackId::Packed(pack_name(item.0.as_str()));
            match item.1 {
                Err(e) => {
                    proof {
                        lemma_packed_snapshots_fails(all, i + 1);
                    }
                    return Err(e);
                },
                Ok(pack_index) => {
                    match add_pack(&mut index, &pack, pack_index.snapshots()) {
                        Ok(_) => {},
                        Err(e) => {
                            proof {
                                lemma_packed_snapshots_fails(all, i + 1);
                            }
                            return Err(e);
                        },
                    }
                },
            }
        }
        assert(all.take(all.len() as int) =~= all);
        let unpacked = match unpacked {
            Ok(unpacked) => unpacked,
            Err(e) => {
                return Err(e);
            },
        };
        match add_pack(&mut index, &PackId::Unpacked, unpacked.snapshots()) {
            Ok(_) => Ok(index),
            Err(e) => Err(e),
        }
    }
}

/// The snapshot is in the index of its pack.
pub open spec fn is_indexed(
    packs: Seq<(String, Result<PackIndex, Error>)>,
    unpacked: Result<PackIndex, Error>,
    id: SnapshotName,
) -> bool {
    ||| is_packed(packs, id)
    ||| id.pack is Unpacked && has_tag(unpacked->Ok_0@, id.tag)
}

/// The snapshot is in the index of a pack with the name of its pack.
pub open spec fn is_packed(
    packs: Seq<(String, Result<PackIndex, Error>)>,
    id: SnapshotName,
) -> bool {
    exists|i: int|
        0 <= i < packs.len() && PackName::Packed(pack_name_of((#[trigger] packs[i]).0@)) == id.pack
            && has_tag(packs[i].1->Ok_0@, id.tag)
}

proof fn lemma_with_pack_contains(
    ids: Seq<SnapshotName>,
    pack: PackName,
    snapshots: Seq<SnapshotInfo>,
    id: SnapshotName,
)
    requires
        with_pack(ids, pack, snapshots) is Ok,
    ensures
        with_pack(ids, pack, snapshots)->Ok_0.contains(id) <==> ids.contains(id) || id.pack == pack
            && has_tag(snapshots, id.tag),
    decreases snapshots.len(),
{
    if snapshots.len() > 0 {
        let init = snapshots.drop_last();
        lemma_with_pack_contains(ids, pack, init, id);
        lemma_seq_contains_after_push(
            with_pack(ids, pack, init)->Ok_0,
            SnapshotName { pack, tag: snapshots.last().tag },
            id,
        );
        if has_tag(init, id.tag) {
            let i = choose|i: int| 0 <= i < init.len() && (#[trigger] init[i]).tag == id.tag;
            assert(snapshots[i].tag == id.tag);
        }
        if has_tag(snapshots, id.tag) {
            let i = choose|i: int|
                0 <= i < snapshots.len() && (#[trigger] snapshots[i]).tag == id.tag;
            if i < init.len() {
                assert(init[i].tag == id.tag);
            }
        }
        assert(snapshots[snapshots.len() - 1] == snapshots.last());
    }
}

proof fn lemma_packed_snapshots_contains(
    packs: Seq<(String, Result<PackIndex, Error>)>,
    id: SnapshotName,
)
    requires
        packed_snapshots(packs) is Ok,
    ensures
        packed_snapshots(packs)->Ok_0.contains(id) <==> is_packed(packs, id),
    decreases packs.len(),
{
    if packs.len() > 0 {
        let init = packs.drop_last();
        let n = packs.len() - 1;
        assert(packs[n] == packs.last());
        lemma_packed_snapshots_contains(init, id);
        lemma_with_pack_contains(
            packed_snapshots(init)->Ok_0,
            PackName::Packed(pack_name_of(packs.last().0@)),
            packs.last().1->Ok_0@,
            id,
        );
        if is_packed(init, id) {
            let i = choose|i: int|
                0 <= i < init.len() && PackName::Packed(pack_name_of((#[trigger] init[i]).0@))
                    == id.pack && has_tag(init[i].1->Ok_0@, id.tag);
            assert(packs[i] == init[i]);
        }
        if is_packed(packs, id) {
            let i = choose|i: int|
                0 <= i < packs.len() && PackName::Packed(pack_name_of((#[trigger] packs[i]).0@))
                    == id.pack && has_tag(packs[i].1->Ok_0@, id.tag);
            if i < n {
                assert(init[i] == packs[i]);
            }
        }
    }
}

/// A rebuilt index names a pack for a tag exactly if the index of that pack
/// has a snapshot with the tag, and it knows a pack exactly if the index of
/// the pack has some snapshot.
pub proof fn law_rebuilt_index_is_complete(
    packs: Seq<(String, Result<PackIndex, Error>)>,
    unpacked: Result<PackIndex, Error>,
    pack: PackName,
    tag: Seq<char>,
)
    requires
        all_snapshots(packs, unpacked) is Ok,
    ensures
        packs_of(index_of(all_snapshots(packs, unpacked)->Ok_0), tag).contains(pack)
            <==> is_indexed(packs, unpacked, SnapshotName { pack, tag }),
        is_available(index_of(all_snapshots(packs, unpacked)->Ok_0), pack) <==> exists|t: Seq<char>|
            #[trigger] is_indexed(packs, unpacked, SnapshotName { pack, tag: t }),
{
    let ids = all_snapshots(packs, unpacked)->Ok_0;
    assert forall|t: Seq<char>|
        ids.contains(SnapshotName { pack, tag: t }) <==> #[trigger] is_indexed(
            packs,
            unpacked,
            SnapshotName { pack, tag: t },
        ) by {
        let id = SnapshotName { pack, tag: t };
        lemma_packed_snapshots_contains(packs, id);
        lemma_with_pack_contains(
            packed_snapshots(packs)->Ok_0,
            PackName::Unpacked,
            unpacked->Ok_0@,
            id,
        );
    }
    law_index_names_packs_of_snapshots(ids, pack, tag);
    assert(ids.contains(SnapshotName { pack, tag }) <==> is_indexed(
        packs,
        unpacked,
        SnapshotName { pack, tag },
    ));
    law_available_packs_have_snapshots(ids, pack);
    if is_available(index_of(ids), pack) {
        let i = choose|i: int| 0 <= i < ids.len() && (#[trigger] ids[i]).pack == pack;
        let id = SnapshotName { pack, tag: ids[i].tag };
        assert(ids[i] == id);
        assert(ids.contains(id));
        assert(is_indexed(packs, unpacked, SnapshotName { pack, tag: ids[i].tag }));
    }
    if exists|t: Seq<char>|
        #[trigger] is_indexed(packs, unpacked, SnapshotName { pack, tag: t }) {
        let t = choose|t: Seq<char>|
            #[trigger] is_indexed(packs, unpacked, SnapshotName { pack, tag: t });
        let id = SnapshotName { pack, tag: t };
        assert(ids.contains(id));
        let i = choose|i: int| 0 <= i < ids.len() && ids[i] == id;
        assert(ids[i].pack == pack);
    }
}

/// A name is taken for that of a pack index exactly if it ends in `pack.idx`;
/// the pack has the name that stands before that and one more character.
pub proof fn law_names_of_pack_indexes(name: Seq<char>, prefix: Seq<char>, dot: char)
    ensures
        has_index_extension(name) <==> exists|p: Seq<char>| name == #[trigger] (p + "pack.idx"@),
        pack_name_of(prefix.push(dot) + "pack.idx"@) == prefix,
        index_name_of(prefix) == prefix + seq!['.'] + "pack.idx"@,
{
    let ext = "pack.idx"@;
    if has_index_extension(name) {
        let p = name.take(name.len() - ext.len());
        assert(name =~= p + ext);
    }
    if exists|p: Seq<char>| name == #[trigger] (p + ext) {
        let p = choose|p: Seq<char>| name == #[trigger] (p + ext);
        assert(name.subrange(name.len() - ext.len(), name.len() as int) =~= ext);
    }
    assert(pack_name_of(prefix.push(dot) + ext) =~= prefix);
    assert(index_name_of(prefix) =~= prefix + seq!['.'] + ext);
}

/// No snapshot of the list has the empty tag.
pub open spec fn all_tags_allowed(snapshots: Seq<SnapshotInfo>) -> bool {
    forall|j: int| 0 <= j < snapshots.len() ==> (#[trigger] snapshots[j]).tag.len() > 0
}

/// The index of a pack was read, and all its snapshots are allowed. An index
/// without snapshots always is.
pub open spec fn is_fine(pack: (String, Result<PackIndex, Error>)) -> bool {
    &&& pack.1 is Ok
    &&& pack.1->Ok_0@.len() > 0 ==> may_name_pack(pack_name_of(pack.0@))
    &&& all_tags_allowed(pack.1->Ok_0@)
}

/// The snapshots of a pack, in order.
pub open spec fn listing(pack: PackName, snapshots: Seq<SnapshotInfo>) -> Seq<SnapshotName> {
    Seq::new(snapshots.len(), |j: int| SnapshotName { pack, tag: snapshots[j].tag })
}

/// The snapshots of packs, pack by pack.
pub open spec fn packed_listing(packs: Seq<(String, Result<PackIndex, Error>)>) -> Seq<SnapshotName>
    decreases packs.len(),
{
    if packs.len() == 0 {
        Seq::empty()
    } else {
        packed_listing(packs.drop_last()) + listing(
            PackName::Packed(pack_name_of(packs.last().0@)),
            packs.last().1->Ok_0@,
        )
    }
}

proof fn lemma_with_pack(ids: Seq<SnapshotName>, pack: PackName, snapshots: Seq<SnapshotInfo>)
    ensures
        with_pack(ids, pack, snapshots) == (if snapshots.len() > 0 && !pack.valid() {
            Err(Error::IdError(IdError::InvalidPack))
        } else if !all_tags_allowed(snapshots) {
            Err(Error::IdError(IdError::InvalidSnapshot))
        } else {
            Ok(ids + listing(pack, snapshots))
        }),
    decreases snapshots.len(),
{
    if snapshots.len() == 0 {
        assert(ids + listing(pack, snapshots) =~= ids);
    } else {
        let init = snapshots.drop_last();
        lemma_with_pack(ids, pack, init);
        let n = snapshots.len() - 1;
        assert(snapshots[n] == snapshots.last());
        if all_tags_allowed(init) && snapshots.last().tag.len() > 0 {
            assert forall|j: int| 0 <= j < snapshots.len() implies (
            #[trigger] snapshots[j]).tag.len() > 0 by {
                if j < n {
                    assert(init[j].tag.len() > 0);
                }
            }
        }
        if all_tags_allowed(snapshots) {
            assert forall|j: int| 0 <= j < init.len() implies (#[trigger] init[j]).tag.len()
                > 0 by {
                assert(snapshots[j].tag.len() > 0);
            }
            assert((ids + listing(pack, init)).push(
                SnapshotName { pack, tag: snapshots.last().tag },
            ) =~= ids + listing(pack, snapshots));
        }
    }
}

proof fn lemma_packed_snapshots(packs: Seq<(String, Result<PackIndex, Error>)>)
    ensures
        packed_snapshots(packs) is Ok <==> forall|i: int|
            0 <= i < packs.len() ==> is_fine(#[trigger] packs[i]),
        packed_snapshots(packs) is Ok ==> packed_snapshots(packs)->Ok_0 == packed_listing(packs),
    decreases packs.len(),
{
    if packs.len() > 0 {
        let init = packs.drop_last();
        let n = packs.len() - 1;
        lemma_packed_snapshots(init);
        assert(packs[n] == packs.last());
        if packed_snapshots(init) is Ok && packs.last().1 is Ok {
            let pack = PackName::Packed(pack_name_of(packs.last().0@));
            let index = packs.last().1->Ok_0@;
            lemma_with_pack(packed_snapshots(init)->Ok_0, pack, index);
            law_allowed_snapshots(pack_name_of(packs.last().0@), Seq::empty());
        }
        if packed_snapshots(packs) is Ok {
            assert forall|i: int| 0 <= i < packs.len() implies is_fine(#[trigger] packs[i]) by {
                if i < n {
                    assert(is_fine(init[i]));
                }
            }
        }
        if forall|i: int| 0 <= i < packs.len() ==> is_fine(#[trigger] packs[i]) {
            assert forall|i: int| 0 <= i < init.len() implies is_fine(#[trigger] init[i]) by {
                assert(is_fine(packs[i]));
            }
            assert(is_fine(packs[n]));
        }
    }
}

/// Rebuilding succeeds exactly if all indexes were read and all snapshots in
/// them are allowed: those of a pack need a pack that may have its name, and
/// none may have the empty tag. An index without snapshots never makes it fail.
/// The snapshots then come pack by pack, and the unpacked ones last.
pub proof fn law_when_rebuilding_succeeds(
    packs: Seq<(String, Result<PackIndex, Error>)>,
    unpacked: Result<PackIndex, Error>,
)
    ensures
        all_snapshots(packs, unpacked) is Ok <==> {
            &&& forall|i: int| 0 <= i < packs.len() ==> is_fine(#[trigger] packs[i])
            &&& unpacked is Ok
            &&& all_tags_allowed(unpacked->Ok_0@)
        },
        all_snapshots(packs, unpacked) is Ok ==> all_snapshots(packs, unpacked)->Ok_0
            == packed_listing(packs) + listing(PackName::Unpacked, unpacked->Ok_0@),
{
    lemma_packed_snapshots(packs);
    if packed_snapshots(packs) is Ok && unpacked is Ok {
        lemma_with_pack(packed_snapshots(packs)->Ok_0, PackName::Unpacked, unpacked->Ok_0@);
    }
}

/// Why rebuilding fails: for the first pack that is not fine, or, if there is
/// none, for the unpacked objects. A pack whose index was not read fails for
/// that reason.
pub proof fn law_why_rebuilding_fails(
    packs: Seq<(String, Result<PackIndex, Error>)>,
    unpacked: Result<PackIndex, Error>,
    k: int,
)
    requires
        0 <= k <= packs.len(),
        forall|i: int| 0 <= i < k ==> is_fine(#[trigger] packs[i]),
    ensures
        k < packs.len() && !is_fine(packs[k]) ==> all_snapshots(packs, unpacked) == Err::<
            Seq<SnapshotName>,
            Error,
        >(
            match packs[k].1 {
                Err(e) => e,
                Ok(_) => if !may_name_pack(pack_name_of(packs[k].0@)) {
                    Error::IdError(IdError::InvalidPack)
                } else {
                    Error::IdError(IdError::InvalidSnapshot)
                },
            },
        ),
        k == packs.len() && unpacked is Err ==> all_snapshots(packs, unpacked) == Err::<
            Seq<SnapshotName>,
            Error,
        >(unpacked->Err_0),
        k == packs.len() && unpacked is Ok && !all_tags_allowed(unpacked->Ok_0@) ==> all_snapshots(
            packs,
            unpacked,
        ) == Err::<Seq<SnapshotName>, Error>(Error::IdError(IdError::InvalidSnapshot)),
{
    if k < packs.len() && !is_fine(packs[k]) {
        let done = packs.take(k);
        lemma_packed_snapshots(done);
        assert forall|i: int| 0 <= i < done.len() implies is_fine(#[trigger] done[i]) by {
            assert(is_fine(packs[i]));
        }
        let more = packs.take(k + 1);
        assert(more.drop_last() =~= done);
        assert(more.last() == packs[k]);
        if packs[k].1 is Ok {
            let pack = PackName::Packed(pack_name_of(packs[k].0@));
            lemma_with_pack(packed_snapshots(done)->Ok_0, pack, packs[k].1->Ok_0@);
            law_allowed_snapshots(pack_name_of(packs[k].0@), Seq::empty());
        }
        lemma_packed_snapshots_fails(packs, k + 1);
    } else {
        lemma_packed_snapshots(packs);
        if k == packs.len() && unpacked is Ok {
            lemma_with_pack(packed_snapshots(packs)->Ok_0, PackName::Unpacked, unpacked->Ok_0@);
        }
    }
}

} // verus!
