//! Names of packs and snapshots.

use vstd::prelude::*;

use crate::constants::UNPACKED_DIR;
use crate::error::IdError;
use crate::order::{bytes_before, compare_bytes, Standing};

verus! {

/// What identifies a pack: its name, or that it is no pack at all but the
/// collection of the unpacked objects.
pub enum PackName {
    Packed(Seq<char>),
    Unpacked,
}

/// Identifies a pack.
#[derive(Debug, Eq)]
pub enum PackId {
    /// The pack with this name.
    Packed(String),
    /// The objects that are in no pack.
    Unpacked,
}

impl View for PackId {
    type V = PackName;

    open spec fn view(&self) -> PackName {
        match self {
            PackId::Packed(name) => PackName::Packed(name@),
            PackId::Unpacked => PackName::Unpacked,
        }
    }
}

/// The packs that a list names.
pub open spec fn pack_names(v: Seq<PackId>) -> Seq<PackName> {
    Seq::new(v.len(), |i: int| v[i]@)
}

impl Clone for PackId {
    fn clone(&self) -> (r: Self)
        ensures
            r@ == self@,
    {
        match self {
            PackId::Packed(name) => PackId::Packed(name.clone()),
            PackId::Unpacked => PackId::Unpacked,
        }
    }
}

impl PartialEq for PackId {
    fn eq(&self, other: &Self) -> (r: bool) {
        match (self, other) {
            (PackId::Packed(a), PackId::Packed(b)) => *a == *b,
            (PackId::Unpacked, PackId::Unpacked) => true,
            _ => false,
        }
    }
}

impl vstd::std_specs::cmp::PartialEqSpecImpl for PackId {
    open spec fn obeys_eq_spec() -> bool {
        true
    }

    open spec fn eq_spec(&self, other: &Self) -> bool {
        self@ == other@
    }
}

impl PackName {
    /// The order of packs: by the bytes of their names, the unpacked objects
    /// after all packs.
    pub open spec fn before(self, other: PackName) -> bool {
        match (self, other) {
            (PackName::Packed(a), PackName::Packed(b)) => bytes_before(
                vstd::utf8::encode_utf8(a),
                vstd::utf8::encode_utf8(b),
            ),
            (PackName::Packed(_), PackName::Unpacked) => true,
            (PackName::Unpacked, _) => false,
        }
    }
}

/// Two strings with the same bytes are the same.
pub proof fn lemma_encode_injective(a: Seq<char>, b: Seq<char>)
    requires
        vstd::utf8::encode_utf8(a) == vstd::utf8::encode_utf8(b),
    ensures
        a == b,
{
    vstd::utf8::encode_utf8_decode_utf8(a);
    vstd::utf8::encode_utf8_decode_utf8(b);
}

impl PackId {
    /// Compares two packs.
    pub fn compare(&self, other: &PackId) -> (r: Standing)
        ensures
            r == Standing::Before <==> self@.before(other@),
            r == Standing::Same <==> self@ == other@,
            r == Standing::After <==> other@.before(self@),
    {
        match (self, other) {
            (PackId::Packed(a), PackId::Packed(b)) => {
                proof {
                    if vstd::utf8::encode_utf8(a@) == vstd::utf8::encode_utf8(b@) {
                        lemma_encode_injective(a@, b@);
                    }
                }
                compare_bytes(a.as_str().as_bytes(), b.as_str().as_bytes())
            },
            (PackId::Packed(_), PackId::Unpacked) => Standing::Before,
            (PackId::Unpacked, PackId::Packed(_)) => Standing::After,
            (PackId::Unpacked, PackId::Unpacked) => Standing::Same,
        }
    }
}

/// What identifies a snapshot: its pack, and its tag in that pack.
pub struct SnapshotName {
    pub pack: PackName,
    pub tag: Seq<char>,
}

/// The character between the pack and the tag in the text of a snapshot.
pub const ID_SEPARATOR: char = '/';

impl PackName {
    /// How the pack is written.
    pub open spec fn text(self) -> Seq<char> {
        match self {
            PackName::Packed(name) => name,
            PackName::Unpacked => UNPACKED_DIR@,
        }
    }

    /// The name can be told apart from everything else that may stand in the
    /// text of a snapshot.
    pub open spec fn valid(self) -> bool {
        match self {
            PackName::Packed(name) => {
                &&& name.len() > 0
                &&& !name.contains(ID_SEPARATOR)
                &&& name != UNPACKED_DIR@
            },
            PackName::Unpacked => true,
        }
    }
}

impl SnapshotName {
    /// Pack and tag are allowed.
    pub open spec fn valid(self) -> bool {
        self.pack.valid() && self.tag.len() > 0
    }

    /// How the snapshot is written.
    pub open spec fn text(self) -> Seq<char> {
        self.pack.text().push(ID_SEPARATOR) + self.tag
    }

    /// The snapshot of a pack with a tag, where both are allowed.
    pub open spec fn checked(pack: PackName, tag: Seq<char>) -> Result<SnapshotName, IdError> {
        if !pack.valid() {
            Err(IdError::InvalidPack)
        } else if tag.len() == 0 {
            Err(IdError::InvalidSnapshot)
        } else {
            Ok(SnapshotName { pack, tag })
        }
    }

    /// The snapshot that a text names. The first separator ends the pack.
    pub open spec fn parse(s: Seq<char>) -> Result<SnapshotName, IdError> {
        if !s.contains(ID_SEPARATOR) {
            Err(IdError::BadFormat)
        } else {
            let i = first_separator(s);
            let pack = if s.take(i) == UNPACKED_DIR@ {
                PackName::Unpacked
            } else {
                PackName::Packed(s.take(i))
            };
            SnapshotName::checked(pack, s.skip(i + 1))
        }
    }
}

/// The position of the first separator of a text.
pub open spec fn first_separator(s: Seq<char>) -> int
    decreases s.len(),
{
    if s.len() == 0 || s[0] == ID_SEPARATOR {
        0
    } else {
        1 + first_separator(s.drop_first())
    }
}

proof fn lemma_first_separator(s: Seq<char>, i: int)
    requires
        0 <= i < s.len(),
        s[i] == ID_SEPARATOR,
        forall|j: int| 0 <= j < i ==> s[j] != ID_SEPARATOR,
    ensures
        first_separator(s) == i,
    decreases s.len(),
{
    if i > 0 {
        assert(s.drop_first()[i - 1] == s[i]);
        lemma_first_separator(s.drop_first(), i - 1);
    }
}

/// A snapshot can be read back from its text.
pub proof fn law_parse_of_text(id: SnapshotName)
    requires
        id.valid(),
    ensures
        SnapshotName::parse(id.text()) == Ok::<SnapshotName, IdError>(id),
{
    let s = id.text();
    let name = id.pack.text();
    let i = name.len() as int;
    reveal_strlit("unpacked");
    assert(s[i] == ID_SEPARATOR);
    assert forall|j: int| 0 <= j < i implies s[j] != ID_SEPARATOR by {
        assert(s[j] == name[j]);
        assert(name.contains(name[j]));
    }
    lemma_first_separator(s, i);
    assert(s.take(i) =~= name);
    assert(s.skip(i + 1) =~= id.tag);
}

/// A text that names a snapshot is the text of that snapshot, and the
/// snapshot is allowed.
pub proof fn law_text_of_parse(s: Seq<char>)
    requires
        SnapshotName::parse(s) is Ok,
    ensures
        SnapshotName::parse(s)->Ok_0.valid(),
        SnapshotName::parse(s)->Ok_0.text() == s,
{
    let i = first_separator(s);
    lemma_first_separator_exists(s);
    assert(s =~= s.take(i).push(ID_SEPARATOR) + s.skip(i + 1));
}

proof fn lemma_first_separator_exists(s: Seq<char>)
    requires
        s.contains(ID_SEPARATOR),
    ensures
        0 <= first_separator(s) < s.len(),
        s[first_separator(s)] == ID_SEPARATOR,
    decreases s.len(),
{
    if s[0] != ID_SEPARATOR {
        let k = choose|k: int| 0 <= k < s.len() && s[k] == ID_SEPARATOR;
        assert(s.drop_first()[k - 1] == s[k]);
        lemma_first_separator_exists(s.drop_first());
    }
}

/// Identifies a snapshot by its pack and its tag.
#[derive(Debug, PartialEq, Eq)]
pub struct SnapshotId {
    pack: PackId,
    tag: String,
}

impl View for SnapshotId {
    type V = SnapshotName;

    closed spec fn view(&self) -> SnapshotName {
        SnapshotName { pack: self.pack@, tag: self.tag@ }
    }
}

impl SnapshotId {
    /// Pack and tag are allowed.
    #[verifier::type_invariant]
    pub open spec fn wf(&self) -> bool {
        self@.valid()
    }
}

impl Clone for SnapshotId {
    fn clone(&self) -> (r: Self)
        ensures
            r@ == self@,
    {
        proof {
            use_type_invariant(self);
        }
        SnapshotId { pack: self.pack.clone(), tag: self.tag.clone() }
    }
}

/// The position of the first separator of a text, if there is one.
fn find_separator(s: &str) -> (r: Option<usize>)
    ensures
        match r {
            Some(i) => {
                &&& i < s@.len()
                &&& i == first_separator(s@)
                &&& s@.contains(ID_SEPARATOR)
            },
            None => !s@.contains(ID_SEPARATOR),
        },
{
    let n = s.unicode_len();
    let mut i: usize = 0;
    while i < n
        invariant
            i <= n,
            n == s@.len(),
            forall|j: int| 0 <= j < i ==> s@[j] != ID_SEPARATOR,
        decreases n - i,
    {
        if s.get_char(i) == ID_SEPARATOR {
            proof {
                lemma_first_separator(s@, i as int);
            }
            return Some(i);
        }
        i = i + 1;
    }
    None
}

impl SnapshotId {
    /// The snapshot of a pack with a tag.
    pub fn new(pack: PackId, tag: &str) -> (r: Result<SnapshotId, IdError>)
        ensures
            match SnapshotName::checked(pack@, tag@) {
                Ok(id) => r is Ok && r->Ok_0@ == id && id.valid(),
                Err(e) => r == Err::<SnapshotId, IdError>(e),
            },
    {
        let allowed = match &pack {
            PackId::Packed(name) => name.as_str().unicode_len() > 0 && find_separator(
                name.as_str(),
            ).is_none() && *name != UNPACKED_DIR.to_owned(),
            PackId::Unpacked => true,
        };
        if !allowed {
            return Err(IdError::InvalidPack);
        }
        if tag.unicode_len() == 0 {
            return Err(IdError::InvalidSnapshot);
        }
        Ok(SnapshotId { pack, tag: tag.to_owned() })
    }

    /// The snapshot of the unpacked objects with a tag.
    pub fn unpacked(tag: &str) -> (r: Result<SnapshotId, IdError>)
        ensures
            match SnapshotName::checked(PackName::Unpacked, tag@) {
                Ok(id) => r is Ok && r->Ok_0@ == id && id.valid(),
                Err(e) => r == Err::<SnapshotId, IdError>(e),
            },
    {
        SnapshotId::new(PackId::Unpacked, tag)
    }

    /// The snapshot that a text names.
    pub fn from_str(s: &str) -> (r: Result<SnapshotId, IdError>)
        ensures
            match SnapshotName::parse(s@) {
                Ok(id) => r is Ok && r->Ok_0@ == id && id.valid(),
                Err(e) => r == Err::<SnapshotId, IdError>(e),
            },
    {
        match find_separator(s) {
            None => Err(IdError::BadFormat),
            Some(i) => {
                let n = s.unicode_len();
                let name = s.substring_char(0, i).to_owned();
                let tag = s.substring_char(i + 1, n);
                assert(name@ =~= s@.take(i as int));
                assert(tag@ =~= s@.skip(i + 1));
                if name == UNPACKED_DIR.to_owned() {
                    SnapshotId::new(PackId::Unpacked, tag)
                } else {
                    SnapshotId::new(PackId::Packed(name), tag)
                }
            },
        }
    }

    /// How the snapshot is written.
    pub fn to_text(&self) -> (r: String)
        ensures
            r@ == self@.text(),
    {
        let mut r = match &self.pack {
            PackId::Packed(name) => name.clone(),
            PackId::Unpacked => UNPACKED_DIR.to_owned(),
        };
        proof {
            reveal_strlit("/");
        }
        r.append("/");
        assert(r@ =~= self@.pack.text().push(ID_SEPARATOR));
        r.append(self.tag.as_str());
        r
    }

    /// The pack of the snapshot.
    pub fn pack(&self) -> (r: &PackId)
        ensures
            r@ == self@.pack,
    {
        &self.pack
    }

    /// The tag of the snapshot.
    pub fn tag(&self) -> (r: &str)
        ensures
            r@ == self@.tag,
    {
        self.tag.as_str()
    }
}

/// A name that a pack may have: not empty, without a slash, and not the word
/// for the unpacked objects.
pub open spec fn may_name_pack(name: Seq<char>) -> bool {
    name.len() > 0 && !name.contains('/') && name != "unpacked"@
}

/// Which snapshots there may be: those of a pack with an allowed name and those
/// of the unpacked objects, with every tag but the empty one. The name of the
/// pack is looked at first.
pub proof fn law_allowed_snapshots(name: Seq<char>, tag: Seq<char>)
    ensures
        ({
            let pack = PackName::Packed(name);
            SnapshotName::checked(pack, tag) == (if !may_name_pack(name) {
                Err(IdError::InvalidPack)
            } else if tag.len() == 0 {
                Err(IdError::InvalidSnapshot)
            } else {
                Ok(SnapshotName { pack, tag })
            })
        }),
        SnapshotName::checked(PackName::Unpacked, tag) == (if tag.len() == 0 {
            Err(IdError::InvalidSnapshot)
        } else {
            Ok(SnapshotName { pack: PackName::Unpacked, tag })
        }),
        PackName::Packed(name).valid() <==> may_name_pack(name),
        PackName::Unpacked.valid(),
        (SnapshotName { pack: PackName::Packed(name), tag }).valid() <==> may_name_pack(name)
            && tag.len() > 0,
        (SnapshotName { pack: PackName::Unpacked, tag }).valid() <==> tag.len() > 0,
{
}

/// A snapshot is written as its pack, a slash and its tag; the pack of the
/// unpacked objects is written `unpacked`.
pub proof fn law_text_of_snapshot(name: Seq<char>, tag: Seq<char>)
    ensures
        (SnapshotName { pack: PackName::Packed(name), tag }).text() == name + seq!['/'] + tag,
        (SnapshotName { pack: PackName::Unpacked, tag }).text() == "unpacked"@ + seq!['/'] + tag,
{
    assert(name.push('/') =~= name + seq!['/']);
    assert("unpacked"@.push('/') =~= "unpacked"@ + seq!['/']);
}

/// How texts are read: the part before the first slash is the pack, all that
/// follows is the tag.
pub proof fn law_reading_a_snapshot(name: Seq<char>, tag: Seq<char>)
    requires
        !name.contains('/'),
    ensures
        SnapshotName::parse(name) == Err::<SnapshotName, IdError>(IdError::BadFormat),
        SnapshotName::parse(name + seq!['/'] + tag) == (if name.len() == 0 {
            Err(IdError::InvalidPack)
        } else if tag.len() == 0 {
            Err(IdError::InvalidSnapshot)
        } else if name == "unpacked"@ {
            Ok(SnapshotName { pack: PackName::Unpacked, tag })
        } else {
            Ok(SnapshotName { pack: PackName::Packed(name), tag })
        }),
{
    let s = name + seq!['/'] + tag;
    let i = name.len() as int;
    assert(s[i] == '/');
    assert(s.contains('/'));
    assert forall|j: int| 0 <= j < i implies s[j] != ID_SEPARATOR by {
        assert(s[j] == name[j]);
        assert(name.contains(name[j]));
    }
    lemma_first_separator(s, i);
    assert(s.take(i) =~= name);
    assert(s.skip(i + 1) =~= tag);
    reveal_strlit("unpacked");
}

/// A text names a snapshot exactly if it is the text of that snapshot.
pub proof fn law_text_names_its_snapshot(s: Seq<char>, id: SnapshotName)
    ensures
        SnapshotName::parse(s) == Ok::<SnapshotName, IdError>(id) <==> id.valid() && id.text() == s,
{
    if SnapshotName::parse(s) is Ok {
        law_text_of_parse(s);
    }
    if id.valid() {
        law_parse_of_text(id);
    }
}

/// Packs are in the order of the bytes of their names, and the unpacked objects
/// come after all of them.
pub proof fn law_order_of_packs(a: Seq<char>, b: Seq<char>)
    ensures
        PackName::Packed(a).before(PackName::Packed(b)) <==> bytes_before(
            vstd::utf8::encode_utf8(a),
            vstd::utf8::encode_utf8(b),
        ),
        PackName::Packed(a).before(PackName::Unpacked),
        !PackName::Unpacked.before(PackName::Packed(a)),
        !PackName::Unpacked.before(PackName::Unpacked),
{
}

/// A list of packs is read in order, each one as it is.
pub proof fn law_pack_names_keep_their_places(v: Seq<PackId>, i: int)
    requires
        0 <= i < v.len(),
    ensures
        pack_names(v).len() == v.len(),
        v[i] matches PackId::Packed(name) ==> pack_names(v)[i] == PackName::Packed(name@),
        v[i] is Unpacked ==> pack_names(v)[i] == PackName::Unpacked,
{
}

} // verus!
