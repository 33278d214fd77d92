//! Where the files of a repository are.

use vstd::prelude::*;

use crate::constants::{
    HEAD_FILE, INDEX_FILE, PACKS_DIR, REPO_DIR, TEMP_DIR, UNPACKED_DIR, UNPACKED_INDEX_FILE,
};
use crate::packidx::ObjectChecksum;
use crate::path::{join, join_path, push_path, SEPARATOR};

verus! {

/// The bytes of a string.
pub open spec fn utf8(s: Seq<char>) -> Seq<u8> {
    vstd::utf8::encode_utf8(s)
}

/// The data directory of the repository at `repo`.
pub open spec fn data_path(repo: Seq<u8>) -> Seq<u8> {
    join(repo, utf8(REPO_DIR@))
}

/// The file that names the extracted snapshot.
pub open spec fn head_path(repo: Seq<u8>) -> Seq<u8> {
    join(data_path(repo), utf8(HEAD_FILE@))
}

/// The index of the repository.
pub open spec fn index_path(repo: Seq<u8>) -> Seq<u8> {
    join(data_path(repo), utf8(INDEX_FILE@))
}

/// The directory with the packs.
pub open spec fn packs_path(repo: Seq<u8>) -> Seq<u8> {
    join(data_path(repo), utf8(PACKS_DIR@))
}

/// The directory with the unpacked objects.
pub open spec fn unpacked_path(repo: Seq<u8>) -> Seq<u8> {
    join(data_path(repo), utf8(UNPACKED_DIR@))
}

/// The index of the unpacked objects.
pub open spec fn unpacked_index_path(repo: Seq<u8>) -> Seq<u8> {
    join(unpacked_path(repo), utf8(UNPACKED_INDEX_FILE@))
}

/// The directory for files that are being written.
pub open spec fn temp_path(repo: Seq<u8>) -> Seq<u8> {
    join(data_path(repo), utf8(TEMP_DIR@))
}

/// The lower-case hexadecimal digit for a number below sixteen.
pub open spec fn hex_digit(n: int) -> char {
    if n < 10 {
        (48 + n) as char
    } else {
        (87 + n) as char
    }
}

/// Two digits for each byte, the high half first.
pub open spec fn hex_text(bytes: Seq<u8>) -> Seq<char> {
    Seq::new(
        2 * bytes.len(),
        |i: int|
            hex_digit(
                if i % 2 == 0 {
                    bytes[i / 2] as int / 16
                } else {
                    bytes[i / 2] as int % 16
                },
            ),
    )
}

/// The file of an unpacked object: its checksum in hexadecimal, the first two
/// bytes of which are directories.
pub open spec fn loose_object_path(repo: Seq<u8>, checksum: Seq<u8>) -> Seq<u8> {
    let name = utf8(hex_text(checksum));
    join(
        join(join(unpacked_path(repo), name.subrange(0, 2)), name.subrange(2, 4)),
        name.subrange(4, name.len() as int),
    )
}

/// The data directory of the repository at `repo`.
pub fn build_data_path(repo: &[u8]) -> (r: Vec<u8>)
    ensures
        r@ == data_path(repo@),
{
    join_path(repo, REPO_DIR.as_bytes())
}

/// The file that names the extracted snapshot.
pub fn build_head_path(repo: &[u8]) -> (r: Vec<u8>)
    ensures
        r@ == head_path(repo@),
{
    join_path(build_data_path(repo).as_slice(), HEAD_FILE.as_bytes())
}

/// The index of the repository.
pub fn build_index_path(repo: &[u8]) -> (r: Vec<u8>)
    ensures
        r@ == index_path(repo@),
{
    join_path(build_data_path(repo).as_slice(), INDEX_FILE.as_bytes())
}

/// The directory with the packs.
pub fn build_packs_path(repo: &[u8]) -> (r: Vec<u8>)
    ensures
        r@ == packs_path(repo@),
{
    join_path(build_data_path(repo).as_slice(), PACKS_DIR.as_bytes())
}

/// The directory with the unpacked objects.
pub fn build_unpacked_path(repo: &[u8]) -> (r: Vec<u8>)
    ensures
        r@ == unpacked_path(repo@),
{
    join_path(build_data_path(repo).as_slice(), UNPACKED_DIR.as_bytes())
}

/// The index of the unpacked objects.
pub fn build_unpacked_index_path(repo: &[u8]) -> (r: Vec<u8>)
    ensures
        r@ == unpacked_index_path(repo@),
{
    join_path(build_unpacked_path(repo).as_slice(), UNPACKED_INDEX_FILE.as_bytes())
}

/// The directory for files that are being written.
pub fn build_temp_path(repo: &[u8]) -> (r: Vec<u8>)
    ensures
        r@ == temp_path(repo@),
{
    join_path(build_data_path(repo).as_slice(), TEMP_DIR.as_bytes())
}

/// Calls `hex::encode`, which writes each byte as two lower-case hexadecimal
/// digits, the high half of the byte first.
#[verifier::external_body]
fn hex_encode(checksum: &ObjectChecksum) -> (r: String)
    ensures
        r@ == hex_text(checksum@),
{
    hex::encode(&checksum[..])
}

proof fn lemma_hex_bytes(bytes: Seq<u8>)
    ensures
        utf8(hex_text(bytes)) == Seq::new(
            2 * bytes.len(),
            |i: int| hex_text(bytes)[i] as u8,
        ),
        forall|i: int|
            0 <= i < 2 * bytes.len() ==> 48 <= (#[trigger] hex_text(bytes)[i]) as u32 <= 102,
{
    let s = hex_text(bytes);
    assert(vstd::utf8::is_ascii_chars(s));
    vstd::utf8::is_ascii_chars_encode_utf8(s);
}

proof fn lemma_hex_digit_injective(m: int, n: int)
    requires
        0 <= m < 16,
        0 <= n < 16,
        hex_digit(m) == hex_digit(n),
    ensures
        m == n,
{
}

/// A path in a directory whose last byte is no separator.
proof fn lemma_join_below(base: Seq<u8>, p: Seq<u8>)
    requires
        base.len() > 0,
        base.last() != SEPARATOR,
        p.len() > 0,
        p[0] != SEPARATOR,
        p.last() != SEPARATOR,
    ensures
        join(base, p) == base.push(SEPARATOR) + p,
        join(base, p).len() == base.len() + 1 + p.len(),
        join(base, p).last() == p.last(),
        forall|i: int| 0 <= i < base.len() ==> #[trigger] join(base, p)[i] == base[i],
        forall|i: int| 0 <= i < p.len() ==> join(base, p)[base.len() + 1 + i] == #[trigger] p[i],
{
}

proof fn lemma_unpacked_path(repo: Seq<u8>)
    ensures
        unpacked_path(repo).len() > 0,
        unpacked_path(repo).last() != SEPARATOR,
{
    reveal_strlit("unpacked");
    let s = UNPACKED_DIR@;
    assert(vstd::utf8::is_ascii_chars(s));
    vstd::utf8::is_ascii_chars_encode_utf8(s);
    let b = utf8(s);
    assert(b.len() == 8 && b.last() == 100 && b[0] == 117);
    assert(unpacked_path(repo).last() == b.last());
}

/// The bytes of an object's path, from which its name can be read.
proof fn lemma_loose_object_path(repo: Seq<u8>, checksum: Seq<u8>)
    requires
        checksum.len() == 20,
    ensures
        ({
            let name = utf8(hex_text(checksum));
            let p = loose_object_path(repo, checksum);
            let u = unpacked_path(repo).len();
            &&& name.len() == 40
            &&& p.len() == u + 43
            &&& forall|i: int|
                0 <= i < 40 ==> #[trigger] name[i] == p[u + (if i < 2 {
                    1 + i
                } else if i < 4 {
                    2 + i
                } else {
                    3 + i
                })]
        }),
{
    let name = utf8(hex_text(checksum));
    lemma_hex_bytes(checksum);
    assert forall|i: int| 0 <= i < 40 implies #[trigger] name[i] != SEPARATOR by {
        assert(name[i] == hex_text(checksum)[i] as u8);
    }
    let u = unpacked_path(repo);
    lemma_unpacked_path(repo);
    let a = name.subrange(0, 2);
    let b = name.subrange(2, 4);
    let c = name.subrange(4, 40);
    lemma_join_below(u, a);
    lemma_join_below(join(u, a), b);
    lemma_join_below(join(join(u, a), b), c);
    let p = loose_object_path(repo, checksum);
    assert forall|i: int| 0 <= i < 40 implies #[trigger] name[i] == p[u.len() + (if i < 2 {
        1 + i
    } else if i < 4 {
        2 + i
    } else {
        3 + i
    })] by {
        if i < 2 {
            assert(name[i] == a[i]);
        } else if i < 4 {
            assert(name[i] == b[i - 2]);
        } else {
            assert(name[i] == c[i - 4]);
        }
    }
}

/// Objects with different checksums are kept in different files.
pub proof fn law_loose_object_paths_differ(repo: Seq<u8>, a: Seq<u8>, b: Seq<u8>)
    requires
        a.len() == 20,
        b.len() == 20,
        a != b,
    ensures
        loose_object_path(repo, a) != loose_object_path(repo, b),
{
    if loose_object_path(repo, a) == loose_object_path(repo, b) {
        lemma_loose_object_path(repo, a);
        lemma_loose_object_path(repo, b);
        lemma_hex_bytes(a);
        lemma_hex_bytes(b);
        let na = utf8(hex_text(a));
        let nb = utf8(hex_text(b));
        assert(na =~= nb);
        assert forall|k: int| 0 <= k < 20 implies a[k] == b[k] by {
            assert(hex_text(a)[2 * k] as u8 == na[2 * k]);
            assert(hex_text(b)[2 * k] as u8 == nb[2 * k]);
            assert(hex_text(a)[2 * k + 1] as u8 == na[2 * k + 1]);
            assert(hex_text(b)[2 * k + 1] as u8 == nb[2 * k + 1]);
            lemma_hex_digit_injective(a[k] as int / 16, b[k] as int / 16);
            lemma_hex_digit_injective(a[k] as int % 16, b[k] as int % 16);
        }
        assert(a =~= b);
    }
}

/// The file of an unpacked object.
pub fn build_loose_object_path(repo_path: &[u8], checksum: &ObjectChecksum) -> (r: Vec<u8>)
    ensures
        r@ == loose_object_path(repo_path@, checksum@),
{
    let text = hex_encode(checksum);
    proof {
        lemma_hex_bytes(checksum@);
    }
    let name = text.as_str().as_bytes();
    let mut r = build_unpacked_path(repo_path);
    push_path(&mut r, vstd::slice::slice_subrange(name, 0, 2));
    push_path(&mut r, vstd::slice::slice_subrange(name, 2, 4));
    push_path(&mut r, vstd::slice::slice_subrange(name, 4, name.len()));
    r
}

/// The number that a hexadecimal digit stands for.
pub open spec fn digit_value(b: u8) -> int {
    if 48 <= b <= 57 {
        b - 48
    } else {
        b - 87
    }
}

/// The byte is one of `0` to `9` and `a` to `f`.
pub open spec fn is_digit(b: u8) -> bool {
    48 <= b <= 57 || 97 <= b <= 102
}

/// The file of an object is three levels below the directory of the unpacked
/// objects: two digits, two digits, and the rest of the digits of its checksum.
/// Each byte of the checksum can be read from its two digits.
#[verifier::rlimit(40)]
pub proof fn law_checksum_can_be_read_from_the_path(repo: Seq<u8>, checksum: Seq<u8>, k: int)
    requires
        checksum.len() == 20,
        0 <= k < 20,
    ensures
        ({
            let p = loose_object_path(repo, checksum);
            let u = unpacked_path(repo).len() as int;
            let high = u + (if k < 1 {
                1
            } else if k < 2 {
                2
            } else {
                3int
            }) + 2 * k;
            &&& p.len() == u + 43
            &&& p.take(u) == unpacked_path(repo)
            &&& p[u] == 47 && p[u + 3] == 47 && p[u + 6] == 47
            &&& is_digit(p[high]) && is_digit(p[high + 1])
            &&& checksum[k] == 16 * digit_value(p[high]) + digit_value(p[high + 1])
        }),
{
    let p = loose_object_path(repo, checksum);
    let u = unpacked_path(repo);
    lemma_loose_object_path(repo, checksum);
    lemma_hex_bytes(checksum);
    lemma_unpacked_path(repo);
    let name = utf8(hex_text(checksum));
    assert forall|i: int| 0 <= i < 40 implies #[trigger] name[i] != SEPARATOR by {
        assert(name[i] == hex_text(checksum)[i] as u8);
    }
    let a = name.subrange(0, 2);
    let b = name.subrange(2, 4);
    let c = name.subrange(4, 40);
    assert(a[0] == name[0] && a.last() == name[1] && b[0] == name[2] && b.last() == name[3]);
    assert(c[0] == name[4] && c.last() == name[39]);
    lemma_join_below(u, a);
    lemma_join_below(join(u, a), b);
    lemma_join_below(join(join(u, a), b), c);
    assert(p =~= u + seq![47u8] + a + seq![47u8] + b + seq![47u8] + c);
    assert(p.take(u.len() as int) =~= u);
    assert(name[2 * k] == hex_text(checksum)[2 * k] as u8);
    assert(name[2 * k + 1] == hex_text(checksum)[2 * k + 1] as u8);
    let high = checksum[k] as int / 16;
    let low = checksum[k] as int % 16;
    assert(hex_text(checksum)[2 * k] == hex_digit(high));
    assert(hex_text(checksum)[2 * k + 1] == hex_digit(low));
    assert(name[2 * k] == p[u.len() + (if 2 * k < 2 {
        1 + 2 * k
    } else if 2 * k < 4 {
        2 + 2 * k
    } else {
        3 + 2 * k
    })]);
    assert(name[2 * k + 1] == p[u.len() + (if 2 * k + 1 < 2 {
        1 + 2 * k + 1
    } else if 2 * k + 1 < 4 {
        2 + 2 * k + 1
    } else {
        3 + 2 * k + 1
    })]);
}

/// Where the files of a repository are, seen from its data directory, which is
/// at `elfshaker_data` in the repository.
pub proof fn law_places_in_the_data_directory(repo: Seq<u8>)
    ensures
        ({
            let data = join(repo, utf8("elfshaker_data"@));
            &&& data_path(repo) == data
            &&& head_path(repo) == join(data, utf8("HEAD"@))
            &&& index_path(repo) == join(data, utf8("index"@))
            &&& packs_path(repo) == join(data, utf8("packs"@))
            &&& temp_path(repo) == join(data, utf8("temp"@))
            &&& unpacked_path(repo) == join(data, utf8("unpacked"@))
            &&& unpacked_index_path(repo) == join(
                join(data, utf8("unpacked"@)),
                utf8("unpacked.idx"@),
            )
        }),
{
}

} // verus!
