//! File paths as byte strings, with `/` between their components.

use vstd::prelude::*;

use crate::constants::REPO_DIR;
use crate::order::same_bytes;

verus! {

/// The byte `/`, which separates the components of a path.
pub const SEPARATOR: u8 = 47;

/// The byte `.`, which alone stands for the current directory.
pub const DOT: u8 = 46;

/// The contents of a list of byte strings.
pub open spec fn byte_strings(v: Seq<Vec<u8>>) -> Seq<Seq<u8>> {
    Seq::new(v.len(), |i: int| v[i]@)
}

/// A path is absolute if it starts at the root.
pub open spec fn is_absolute(p: Seq<u8>) -> bool {
    p.len() > 0 && p[0] == SEPARATOR
}

/// A path that is not absolute.
pub open spec fn is_relative(p: Seq<u8>) -> bool {
    !is_absolute(p)
}

/// The path `p` as seen from the directory `base`: an absolute path is itself.
pub open spec fn join(base: Seq<u8>, p: Seq<u8>) -> Seq<u8> {
    if is_absolute(p) {
        p
    } else if base.len() > 0 && base.last() != SEPARATOR {
        base.push(SEPARATOR) + p
    } else {
        base + p
    }
}

/// The pieces of a path between its separators.
pub open spec fn segments(p: Seq<u8>) -> Seq<Seq<u8>>
    decreases p.len(),
{
    if p.len() == 0 {
        seq![Seq::<u8>::empty()]
    } else {
        let init = segments(p.drop_last());
        if p.last() == SEPARATOR {
            init.push(Seq::<u8>::empty())
        } else {
            init.drop_last().push(init.last().push(p.last()))
        }
    }
}

/// A piece that names something: neither empty nor the current directory.
pub open spec fn is_name(s: Seq<u8>) -> bool {
    s.len() > 0 && s != seq![DOT]
}

/// The pieces that name something.
pub open spec fn names_of(segs: Seq<Seq<u8>>) -> Seq<Seq<u8>> {
    segs.filter(|s: Seq<u8>| is_name(s))
}

/// The components of a path. Repeated and trailing separators do not count,
/// nor does `.`, except at the start of a relative path. The root of an
/// absolute path is a component of its own.
pub open spec fn components(p: Seq<u8>) -> Seq<Seq<u8>> {
    let names = names_of(segments(p));
    if is_absolute(p) {
        seq![seq![SEPARATOR]] + names
    } else if segments(p)[0] == seq![DOT] {
        seq![seq![DOT]] + names
    } else {
        names
    }
}

/// The path with the given components.
pub open spec fn collect_path(cs: Seq<Seq<u8>>) -> Seq<u8>
    decreases cs.len(),
{
    if cs.len() == 0 {
        Seq::empty()
    } else {
        join(collect_path(cs.drop_last()), cs.last())
    }
}

/// The path `p` without its first `n` components.
pub open spec fn skip_components(p: Seq<u8>, n: nat) -> Seq<u8> {
    collect_path(
        components(p).skip(
            if n <= components(p).len() {
                n as int
            } else {
                components(p).len() as int
            },
        ),
    )
}

/// The first component of the path is the data directory.
pub open spec fn in_data_dir(p: Seq<u8>) -> bool {
    components(p).len() > 0 && components(p)[0] == vstd::utf8::encode_utf8(REPO_DIR@)
}

/// A copy of a byte string.
pub fn copy_path(p: &[u8]) -> (r: Vec<u8>)
    ensures
        r@ == p@,
{
    vstd::slice::slice_to_vec(p)
}

/// Whether the path is relative.
pub fn path_is_relative(p: &[u8]) -> (r: bool)
    ensures
        r == is_relative(p@),
{
    !(p.len() > 0 && p[0] == SEPARATOR)
}

/// Extends `path` by `p`, or replaces it where `p` is absolute.
pub fn push_path(path: &mut Vec<u8>, p: &[u8])
    ensures
        final(path)@ == join(old(path)@, p@),
{
    if !path_is_relative(p) {
        path.clear();
    } else if path.len() > 0 && path[path.len() - 1] != SEPARATOR {
        path.push(SEPARATOR);
    }
    let ghost start = path@;
    let mut i: usize = 0;
    assert(start + p@.take(0) =~= start);
    while i < p.len()
        invariant
            i <= p@.len(),
            path@ == start + p@.take(i as int),
        decreases p.len() - i,
    {
        path.push(p[i]);
        assert(start + p@.take(i + 1) =~= (start + p@.take(i as int)).push(p@[i as int]));
        i = i + 1;
    }
    assert(p@.take(p@.len() as int) =~= p@);
    assert(Seq::<u8>::empty() + p@ =~= p@);
}

/// The path `p` as seen from the directory `base`.
pub fn join_path(base: &[u8], p: &[u8]) -> (r: Vec<u8>)
    ensures
        r@ == join(base@, p@),
{
    let mut r = copy_path(base);
    push_path(&mut r, p);
    r
}

/// A path has at least one piece, and no piece holds a separator.
proof fn lemma_segments(p: Seq<u8>)
    ensures
        segments(p).len() >= 1,
        forall|i: int, j: int|
            0 <= i < segments(p).len() && 0 <= j < segments(p)[i].len() ==> #[trigger] segments(
                p,
            )[i][j] != SEPARATOR,
    decreases p.len(),
{
    if p.len() > 0 {
        lemma_segments(p.drop_last());
    }
}

/// Appending a piece appends it to the names exactly if it is a name.
proof fn lemma_names_push(segs: Seq<Seq<u8>>, s: Seq<u8>)
    ensures
        names_of(segs.push(s)) == (if is_name(s) {
            names_of(segs).push(s)
        } else {
            names_of(segs)
        }),
{
    segs.lemma_filter_push(s, |s: Seq<u8>| is_name(s));
}

fn split_segments(p: &[u8]) -> (r: Vec<Vec<u8>>)
    ensures
        byte_strings(r@) == segments(p@),
{
    let mut done: Vec<Vec<u8>> = Vec::new();
    let mut current: Vec<u8> = Vec::new();
    let mut i: usize = 0;
    assert(p@.take(0) =~= Seq::<u8>::empty());
    assert(byte_strings(done@).push(current@) =~= segments(p@.take(0)));
    while i < p.len()
        invariant
            i <= p@.len(),
            byte_strings(done@).push(current@) == segments(p@.take(i as int)),
        decreases p.len() - i,
    {
        let ghost before = byte_strings(done@);
        let ghost piece = current@;
        proof {
            assert(p@.take(i + 1).drop_last() =~= p@.take(i as int));
            assert(before.push(piece).drop_last() =~= before);
            assert(before.push(piece).last() == piece);
        }
        if p[i] == SEPARATOR {
            done.push(current);
            current = Vec::new();
            assert(byte_strings(done@) =~= before.push(piece));
        } else {
            current.push(p[i]);
        }
        assert(byte_strings(done@).push(current@) =~= segments(p@.take(i + 1)));
        i = i + 1;
    }
    assert(p@.take(p@.len() as int) =~= p@);
    let ghost before = byte_strings(done@);
    let ghost piece = current@;
    done.push(current);
    assert(byte_strings(done@) =~= before.push(piece));
    done
}

/// The components of a path, in order.
pub fn path_components(p: &[u8]) -> (r: Vec<Vec<u8>>)
    ensures
        byte_strings(r@) == components(p@),
{
    let pieces = split_segments(p);
    let ghost segs = segments(p@);
    proof {
        lemma_segments(p@);
    }
    let mut r: Vec<Vec<u8>> = Vec::new();
    if !path_is_relative(p) {
        let mut root: Vec<u8> = Vec::new();
        root.push(SEPARATOR);
        assert(root@ =~= seq![SEPARATOR]);
        r.push(root);
    } else if pieces[0].len() == 1 && pieces[0][0] == DOT {
        assert(segs[0] == pieces@[0]@);
        assert(segs[0] =~= seq![DOT]);
        let mut here: Vec<u8> = Vec::new();
        here.push(DOT);
        assert(here@ =~= seq![DOT]);
        r.push(here);
    }
    let ghost start = byte_strings(r@);
    proof {
        assert(segs[0] == pieces@[0]@);
        if segs[0] == seq![DOT] {
            assert(pieces@[0]@.len() == 1 && pieces@[0]@[0] == DOT);
        }
        assert(components(p@) =~= start + names_of(segs));
        reveal(Seq::filter);
        assert(names_of(segs.take(0)) =~= Seq::<Seq<u8>>::empty());
        assert(start + names_of(segs.take(0)) =~= start);
    }
    let mut i: usize = 0;
    while i < pieces.len()
        invariant
            i <= pieces@.len(),
            segs == byte_strings(pieces@),
            byte_strings(r@) == start + names_of(segs.take(i as int)),
        decreases pieces.len() - i,
    {
        let ghost before = byte_strings(r@);
        let piece = copy_path(pieces[i].as_slice());
        let ghost text = piece@;
        proof {
            assert(segs.take(i + 1) =~= segs.take(i as int).push(segs[i as int]));
            lemma_names_push(segs.take(i as int), segs[i as int]);
        }
        let is_dot = piece.len() == 1 && piece[0] == DOT;
        proof {
            if is_dot {
                assert(text =~= seq![DOT]);
            }
        }
        if piece.len() > 0 && !is_dot {
            r.push(piece);
            assert(byte_strings(r@) =~= before.push(text));
            assert(before.push(text) =~= start + names_of(segs.take(i as int)).push(text));
        }
        i = i + 1;
    }
    assert(segs.take(segs.len() as int) =~= segs);
    r
}

/// The path `p` without its first `n` components.
pub fn path_without_first(p: &[u8], n: usize) -> (r: Vec<u8>)
    ensures
        r@ == skip_components(p@, n as nat),
{
    let cs = path_components(p);
    let start = if n <= cs.len() {
        n
    } else {
        cs.len()
    };
    let ghost kept = components(p@).skip(start as int);
    let mut r: Vec<u8> = Vec::new();
    let mut i: usize = start;
    assert(kept.take(0) =~= Seq::<Seq<u8>>::empty());
    assert(r@ =~= collect_path(kept.take(0)));
    while i < cs.len()
        invariant
            start <= i <= cs@.len(),
            byte_strings(cs@) == components(p@),
            kept == components(p@).skip(start as int),
            r@ == collect_path(kept.take(i - start)),
        decreases cs.len() - i,
    {
        proof {
            assert(kept.take(i - start + 1).drop_last() =~= kept.take(i - start));
            assert(kept.take(i - start + 1).last() == byte_strings(cs@)[i as int]);
        }
        push_path(&mut r, cs[i].as_slice());
        i = i + 1;
    }
    assert(kept.take(kept.len() as int) =~= kept);
    r
}

/// Every piece that names something is one of the pieces, and holds no
/// separator.
proof fn lemma_names(p: Seq<u8>)
    ensures
        forall|i: int|
            0 <= i < names_of(segments(p)).len() ==> is_plain(#[trigger] names_of(segments(p))[i]),
{
    let segs = segments(p);
    let names = names_of(segs);
    let pred = |s: Seq<u8>| is_name(s);
    lemma_segments(p);
    assert forall|i: int| 0 <= i < names.len() implies is_plain(#[trigger] names[i]) by {
        segs.lemma_filter_pred(pred, i);
        assert(names.contains(names[i]));
        segs.lemma_filter_contains_rev(pred, names[i]);
        let k = choose|k: int| 0 <= k < segs.len() && segs[k] == names[i];
        assert forall|j: int| 0 <= j < names[i].len() implies #[trigger] names[i][j]
            != SEPARATOR by {
            assert(segs[k][j] != SEPARATOR);
        }
    }
}

/// A name of a file or directory: not empty, not `.`, without a separator.
pub open spec fn is_plain(s: Seq<u8>) -> bool {
    &&& is_name(s)
    &&& forall|j: int| 0 <= j < s.len() ==> #[trigger] s[j] != SEPARATOR
}

proof fn lemma_collect_relative(cs: Seq<Seq<u8>>)
    requires
        forall|i: int| 0 <= i < cs.len() ==> is_relative(#[trigger] cs[i]),
    ensures
        is_relative(collect_path(cs)),
    decreases cs.len(),
{
    if cs.len() > 0 {
        let init = cs.drop_last();
        assert forall|i: int| 0 <= i < init.len() implies is_relative(#[trigger] init[i]) by {
            assert(init[i] == cs[i]);
        }
        lemma_collect_relative(init);
        assert(is_relative(cs[cs.len() - 1]));
    }
}

/// What is left of a path is relative, if the root was taken off or there was
/// none.
pub proof fn lemma_skip_components_relative(p: Seq<u8>, n: nat)
    requires
        n >= 1 || is_relative(p),
    ensures
        is_relative(skip_components(p, n)),
{
    let cs = components(p);
    let k = if n <= cs.len() {
        n as int
    } else {
        cs.len() as int
    };
    lemma_names(p);
    assert forall|i: int| 0 <= i < cs.skip(k).len() implies is_relative(
        #[trigger] cs.skip(k)[i],
    ) by {
        let names = names_of(segments(p));
        if is_absolute(p) {
            assert(cs.skip(k)[i] == names[i + k - 1]);
        } else if segments(p)[0] == seq![DOT] {
            if i + k > 0 {
                assert(cs.skip(k)[i] == names[i + k - 1]);
            }
        } else {
            assert(cs.skip(k)[i] == names[i + k]);
        }
    }
    lemma_collect_relative(cs.skip(k));
}

/// Whether the relative path is rooted at the data directory.
pub fn is_data_dir(p: &[u8]) -> (r: bool)
    requires
        is_relative(p@),
    ensures
        r == in_data_dir(p@),
{
    let cs = path_components(p);
    if cs.len() == 0 {
        false
    } else {
        assert(components(p@)[0] == cs@[0]@);
        same_bytes(cs[0].as_slice(), REPO_DIR.as_bytes())
    }
}

/// The pieces of two paths with a separator between them.
proof fn lemma_segments_concat(a: Seq<u8>, b: Seq<u8>)
    ensures
        segments(a.push(SEPARATOR) + b) == segments(a) + segments(b),
    decreases b.len(),
{
    lemma_segments(a);
    lemma_segments(b);
    if b.len() == 0 {
        assert(a.push(SEPARATOR) + b =~= a.push(SEPARATOR));
        assert(a.push(SEPARATOR).drop_last() =~= a);
        assert(segments(a) + segments(b) =~= segments(a).push(Seq::<u8>::empty()));
    } else {
        let c = b.drop_last();
        let all = a.push(SEPARATOR) + b;
        lemma_segments_concat(a, c);
        lemma_segments(c);
        assert(all.drop_last() =~= a.push(SEPARATOR) + c);
        assert(all.last() == b.last());
        let init = segments(a) + segments(c);
        if b.last() == SEPARATOR {
            assert(init.push(Seq::<u8>::empty()) =~= segments(a) + segments(b));
        } else {
            assert(init.last() == segments(c).last());
            assert(init.drop_last() =~= segments(a) + segments(c).drop_last());
            assert(init.drop_last().push(init.last().push(b.last())) =~= segments(a) + segments(b));
        }
    }
}

/// The names of a path are those of its directory and those below.
proof fn lemma_names_join(base: Seq<u8>, p: Seq<u8>)
    requires
        base.len() > 0,
        is_relative(p),
    ensures
        names_of(segments(join(base, p))) == names_of(segments(base)) + names_of(segments(p)),
{
    let pred = |s: Seq<u8>| is_name(s);
    if base.last() != SEPARATOR {
        lemma_segments_concat(base, p);
        Seq::filter_distributes_over_add(segments(base), segments(p), pred);
    } else {
        let dir = base.drop_last();
        assert(base =~= dir.push(SEPARATOR));
        assert(base + p =~= dir.push(SEPARATOR) + p);
        lemma_segments_concat(dir, p);
        Seq::filter_distributes_over_add(segments(dir), segments(p), pred);
        lemma_names_push(segments(dir), Seq::<u8>::empty());
    }
}

/// A path of one name has one piece.
proof fn lemma_segments_of_plain(s: Seq<u8>)
    requires
        forall|j: int| 0 <= j < s.len() ==> #[trigger] s[j] != SEPARATOR,
    ensures
        segments(s) == seq![s],
    decreases s.len(),
{
    if s.len() == 0 {
        assert(s =~= Seq::<u8>::empty());
    } else {
        let init = s.drop_last();
        assert forall|j: int| 0 <= j < init.len() implies #[trigger] init[j] != SEPARATOR by {
            assert(s[j] != SEPARATOR);
        }
        lemma_segments_of_plain(init);
        assert(s[s.len() - 1] != SEPARATOR);
        assert(init.push(s.last()) =~= s);
        assert(segments(s) =~= seq![s]);
    }
}

/// A path made of names has these names, and is not absolute.
proof fn lemma_collect_names(names: Seq<Seq<u8>>)
    requires
        forall|i: int| 0 <= i < names.len() ==> is_plain(#[trigger] names[i]),
    ensures
        is_relative(collect_path(names)),
        names_of(segments(collect_path(names))) == names,
        names.len() > 0 ==> collect_path(names).len() > 0,
    decreases names.len(),
{
    reveal(Seq::filter);
    if names.len() == 0 {
        assert(collect_path(names) =~= Seq::<u8>::empty());
        lemma_names_push(Seq::empty(), Seq::empty());
        assert(segments(Seq::<u8>::empty()) =~= Seq::<Seq<u8>>::empty().push(Seq::<u8>::empty()));
        assert(names_of(segments(collect_path(names))) =~= names);
    } else {
        let init = names.drop_last();
        let last = names.last();
        assert(is_plain(names[names.len() - 1]));
        assert forall|i: int| 0 <= i < init.len() implies is_plain(#[trigger] init[i]) by {
            assert(init[i] == names[i]);
        }
        lemma_collect_names(init);
        assert(last[0] != SEPARATOR);
        lemma_segments_of_plain(last);
        lemma_names_push(Seq::empty(), last);
        assert(seq![last] =~= Seq::<Seq<u8>>::empty().push(last));
        assert(names_of(seq![last]) =~= seq![last]);
        let dir = collect_path(init);
        if init.len() == 0 {
            assert(dir =~= Seq::<u8>::empty());
            assert(join(dir, last) =~= last);
            assert(names =~= seq![last]);
        } else {
            lemma_names_join(dir, last);
            assert(names =~= init + seq![last]);
        }
    }
}

/// A path in a directory, without the components of the directory, is the
/// path relative to it.
pub proof fn law_skipping_a_directory(dir: Seq<u8>, names: Seq<Seq<u8>>)
    requires
        is_absolute(dir),
        forall|i: int| 0 <= i < names.len() ==> is_plain(#[trigger] names[i]),
    ensures
        skip_components(join(dir, collect_path(names)), components(dir).len()) == collect_path(
            names,
        ),
{
    let p = collect_path(names);
    lemma_collect_names(names);
    lemma_names_join(dir, p);
    let all = join(dir, p);
    assert(is_absolute(all));
    assert(components(all) =~= components(dir) + names);
    assert(components(all).skip(components(dir).len() as int) =~= names);
}

/// What may stand between two slashes: a name, not the current directory.
pub open spec fn is_file_name(s: Seq<u8>) -> bool {
    &&& s.len() > 0
    &&& s != seq![46u8]
    &&& forall|j: int| 0 <= j < s.len() ==> #[trigger] s[j] != 47
}

/// The byte strings one after the other, with a slash between each two.
pub open spec fn with_slashes(v: Seq<Seq<u8>>) -> Seq<u8>
    decreases v.len(),
{
    if v.len() == 0 {
        Seq::empty()
    } else if v.len() == 1 {
        v[0]
    } else {
        with_slashes(v.drop_last()).push(47) + v.last()
    }
}

/// A list of byte strings is read in order, each one as it is.
pub proof fn law_byte_strings_keep_their_places(v: Seq<Vec<u8>>, i: int)
    requires
        0 <= i < v.len(),
    ensures
        byte_strings(v).len() == v.len(),
        byte_strings(v)[i] == v[i]@,
{
}

/// A path in a directory starts with the directory and ends with the path; if
/// there is a directory at all, a slash stands between them, which may be the
/// last byte of the directory. A path that starts with a slash is taken as it
/// is.
pub proof fn law_joined_path(base: Seq<u8>, p: Seq<u8>)
    ensures
        is_relative(p) <==> p.len() == 0 || p[0] != 47,
        p.len() > 0 && p[0] == 47 ==> join(base, p) == p,
        p.len() == 0 || p[0] != 47 ==> {
            let r = join(base, p);
            let n = r.len() - p.len();
            &&& base.len() <= n <= base.len() + 1
            &&& r.take(base.len() as int) == base
            &&& r.skip(n) == p
            &&& base.len() == 0 ==> n == 0
            &&& base.len() > 0 ==> r[n - 1] == 47
            &&& base.len() > 0 && base.last() == 47 ==> n == base.len()
        },
{
    if p.len() == 0 || p[0] != 47 {
        let r = join(base, p);
        let n = r.len() - p.len();
        assert(r.take(base.len() as int) =~= base);
        assert(r.skip(n) =~= p);
    }
}

/// The pieces of a path hold no slash, and with slashes between them they are
/// the path.
pub proof fn law_pieces_make_the_path(p: Seq<u8>)
    ensures
        segments(p).len() >= 1,
        with_slashes(segments(p)) == p,
        forall|i: int, j: int|
            0 <= i < segments(p).len() && 0 <= j < segments(p)[i].len() ==> #[trigger] segments(
                p,
            )[i][j] != 47,
    decreases p.len(),
{
    lemma_segments(p);
    if p.len() == 0 {
        assert(with_slashes(segments(p)) =~= p);
    } else {
        let init = p.drop_last();
        law_pieces_make_the_path(init);
        let v = segments(init);
        let w = segments(p);
        if p.last() == SEPARATOR {
            assert(w.drop_last() =~= v);
            assert(with_slashes(w) =~= p);
        } else {
            assert(w.drop_last() =~= v.drop_last());
            assert(with_slashes(w) =~= with_slashes(v).push(p.last()));
            assert(with_slashes(w) =~= p);
        }
    }
}

proof fn lemma_with_slashes_is_collected(names: Seq<Seq<u8>>)
    requires
        forall|i: int| 0 <= i < names.len() ==> is_file_name(#[trigger] names[i]),
    ensures
        with_slashes(names) == collect_path(names),
        names.len() > 0 ==> with_slashes(names).len() > 0 && with_slashes(names).last() != 47
            && with_slashes(names)[0] != 47,
    decreases names.len(),
{
    if names.len() > 0 {
        let init = names.drop_last();
        assert forall|i: int| 0 <= i < init.len() implies is_file_name(#[trigger] init[i]) by {
            assert(init[i] == names[i]);
        }
        lemma_with_slashes_is_collected(init);
        let last = names.last();
        assert(is_file_name(names[names.len() - 1]));
        assert(last[last.len() - 1] != 47 && last[0] != 47);
        if names.len() == 1 {
            assert(collect_path(init) =~= Seq::<u8>::empty());
            assert(collect_path(names) =~= last);
        } else {
            assert(with_slashes(names) =~= collect_path(names));
        }
    }
}

proof fn lemma_plain_names(names: Seq<Seq<u8>>)
    requires
        forall|i: int| 0 <= i < names.len() ==> is_file_name(#[trigger] names[i]),
    ensures
        forall|i: int| 0 <= i < names.len() ==> is_plain(#[trigger] names[i]),
{
    assert forall|i: int| 0 <= i < names.len() implies is_plain(#[trigger] names[i]) by {
        assert(is_file_name(names[i]));
    }
}

/// A path made of names has these names as its components; behind a slash, the
/// slash comes first.
pub proof fn law_components_are_the_names(names: Seq<Seq<u8>>)
    requires
        forall|i: int| 0 <= i < names.len() ==> is_file_name(#[trigger] names[i]),
    ensures
        components(with_slashes(names)) == names,
        components(seq![47u8] + with_slashes(names)) == seq![seq![47u8]] + names,
{
    let p = with_slashes(names);
    lemma_plain_names(names);
    lemma_with_slashes_is_collected(names);
    lemma_collect_names(names);
    lemma_segments(p);
    assert(segments(p)[0] != seq![DOT]) by {
        lemma_first_piece(names);
    }
    assert(components(p) =~= names);
    let root = seq![47u8];
    assert(join(root, p) =~= root + p);
    lemma_names_join(root, p);
    assert(names_of(segments(root)) =~= Seq::<Seq<u8>>::empty()) by {
        assert(root =~= Seq::<u8>::empty().push(SEPARATOR));
        assert(root.drop_last() =~= Seq::<u8>::empty());
        assert(segments(root) =~= segments(Seq::<u8>::empty()).push(Seq::<u8>::empty()));
        lemma_names_push(segments(Seq::<u8>::empty()), Seq::<u8>::empty());
        lemma_names_push(Seq::empty(), Seq::<u8>::empty());
        assert(segments(Seq::<u8>::empty()) =~= Seq::<Seq<u8>>::empty().push(Seq::<u8>::empty()));
        reveal(Seq::filter);
    }
    assert(components(root + p) =~= seq![root] + names);
}

/// The first piece of a path made of names is the first name.
proof fn lemma_first_piece(names: Seq<Seq<u8>>)
    requires
        forall|i: int| 0 <= i < names.len() ==> is_file_name(#[trigger] names[i]),
    ensures
        names.len() > 0 ==> segments(with_slashes(names))[0] == names[0],
        names.len() == 0 ==> segments(with_slashes(names))[0] == Seq::<u8>::empty(),
    decreases names.len(),
{
    if names.len() > 0 {
        let init = names.drop_last();
        assert forall|i: int| 0 <= i < init.len() implies is_file_name(#[trigger] init[i]) by {
            assert(init[i] == names[i]);
        }
        assert(is_file_name(names[0]));
        if names.len() == 1 {
            lemma_segments_of_plain(names[0]);
        } else {
            lemma_first_piece(init);
            lemma_segments_concat(with_slashes(init), names.last());
            lemma_segments(with_slashes(init));
            assert(init[0] == names[0]);
        }
    }
}

/// Without its first components, a canonical path is made of the names that
/// are left.
pub proof fn law_rest_of_a_canonical_path(names: Seq<Seq<u8>>, n: nat)
    requires
        forall|i: int| 0 <= i < names.len() ==> is_file_name(#[trigger] names[i]),
        n > 0,
    ensures
        n <= names.len() ==> skip_components(seq![47u8] + with_slashes(names), n) == with_slashes(
            names.skip(n - 1),
        ),
        n > names.len() ==> skip_components(seq![47u8] + with_slashes(names), n).len() == 0,
{
    law_components_are_the_names(names);
    let cs = components(seq![47u8] + with_slashes(names));
    if n <= names.len() {
        let rest = names.skip(n - 1);
        assert(cs.skip(n as int) =~= rest);
        assert forall|i: int| 0 <= i < rest.len() implies is_file_name(#[trigger] rest[i]) by {
            assert(rest[i] == names[i + n - 1]);
        }
        lemma_with_slashes_is_collected(rest);
    } else {
        assert(cs.skip(cs.len() as int) =~= Seq::<Seq<u8>>::empty());
    }
}

/// Repeated slashes and the current directory between two slashes do not
/// count, nor does a slash at the end, or one with the current directory behind
/// it. The current directory at the start does.
#[verifier::rlimit(40)]
pub proof fn law_components_that_do_not_count(a: Seq<u8>, b: Seq<u8>)
    ensures
        components(a.push(47).push(47) + b) == components(a.push(47) + b),
        components(a.push(47).push(46).push(47) + b) == components(a.push(47) + b),
        a.len() > 0 ==> components(a.push(47)) == components(a),
        a.len() > 0 ==> components(a.push(47).push(46)) == components(a),
        b.len() == 0 || b[0] != 47 && b[0] != 46 ==> components(seq![46u8, 47u8] + b) == seq![
            seq![46u8],
        ] + components(b),
{
    let pred = |s: Seq<u8>| is_name(s);
    let none = Seq::<u8>::empty();
    let dot = seq![46u8];
    lemma_segments(a);
    lemma_segments(b);
    lemma_segments_concat(a, b);
    lemma_segments_concat(a.push(47), b);
    lemma_segments_concat(a, none);
    assert(a.push(47) + none =~= a.push(47));
    lemma_segments_of_plain(none);
    assert(segments(a.push(47)) == segments(a) + seq![none]);
    lemma_segments_of_plain(dot);
    lemma_segments_concat(a, dot);
    assert(a.push(47) + dot =~= a.push(47).push(46));
    assert(segments(a.push(47).push(46)) == segments(a) + seq![dot]);
    lemma_segments_concat(a.push(47).push(46), b);
    lemma_names_push(Seq::empty(), none);
    lemma_names_push(Seq::empty(), dot);
    assert(seq![none] =~= Seq::<Seq<u8>>::empty().push(none));
    assert(seq![dot] =~= Seq::<Seq<u8>>::empty().push(dot));
    reveal(Seq::filter);
    assert(names_of(Seq::<Seq<u8>>::empty()) =~= Seq::<Seq<u8>>::empty());
    Seq::filter_distributes_over_add(segments(a), segments(b), pred);
    Seq::filter_distributes_over_add(segments(a), seq![none], pred);
    Seq::filter_distributes_over_add(segments(a), seq![dot], pred);
    Seq::filter_distributes_over_add(segments(a) + seq![none], segments(b), pred);
    Seq::filter_distributes_over_add(segments(a) + seq![dot], segments(b), pred);
    assert(names_of(segments(a)) + names_of(Seq::<Seq<u8>>::empty()) =~= names_of(segments(a)));
    assert(components(a.push(47).push(47) + b) =~= components(a.push(47) + b));
    assert(components(a.push(47).push(46).push(47) + b) =~= components(a.push(47) + b));
    if a.len() > 0 {
        assert(components(a.push(47)) =~= components(a));
        assert(components(a.push(47).push(46)) =~= components(a));
    }
    if b.len() == 0 || b[0] != 47 && b[0] != 46 {
        let p = seq![46u8, 47u8] + b;
        assert(p =~= dot.push(47) + b);
        lemma_segments_concat(dot, b);
        Seq::filter_distributes_over_add(seq![dot], segments(b), pred);
        assert(segments(b)[0] != dot) by {
            lemma_first_byte(b);
        }
        assert(Seq::<Seq<u8>>::empty() + names_of(segments(b)) =~= names_of(segments(b)));
        assert(components(p) =~= seq![dot] + components(b));
    }
}

/// The first piece of a path starts with the first byte of the path, unless
/// that is a slash.
proof fn lemma_first_byte(p: Seq<u8>)
    ensures
        p.len() == 0 ==> segments(p)[0].len() == 0,
        p.len() > 0 && p[0] != 47 ==> segments(p)[0].len() > 0 && segments(p)[0][0] == p[0],
    decreases p.len(),
{
    if p.len() > 0 {
        lemma_first_byte(p.drop_last());
        lemma_segments(p.drop_last());
    }
}

/// The position of the first slash of a path, or its length.
proof fn lemma_first_slash(p: Seq<u8>) -> (n: int)
    ensures
        0 <= n <= p.len(),
        n < p.len() ==> p[n] == 47,
        forall|j: int| 0 <= j < n ==> #[trigger] p[j] != 47,
    decreases p.len(),
{
    if p.len() == 0 {
        0
    } else {
        let init = p.drop_last();
        let n = lemma_first_slash(init);
        assert forall|j: int| 0 <= j < n implies #[trigger] p[j] != 47 by {
            assert(init[j] == p[j]);
        }
        if n < init.len() || p.last() == 47 {
            n
        } else {
            n + 1
        }
    }
}

/// A relative path points into the data directory exactly if it is the name of
/// the data directory, or starts with that name and a slash. What comes behind
/// does not matter.
#[verifier::rlimit(40)]
pub proof fn law_data_directory_is_the_first_name(p: Seq<u8>)
    requires
        p.len() == 0 || p[0] != 47,
    ensures
        ({
            let dir = vstd::utf8::encode_utf8("elfshaker_data"@);
            in_data_dir(p) <==> {
                ||| p == dir
                ||| p.len() > dir.len() && p.take(dir.len() as int) == dir && p[dir.len() as int]
                    == 47
            }
        }),
{
    let dir = vstd::utf8::encode_utf8("elfshaker_data"@);
    reveal_strlit("elfshaker_data");
    assert(vstd::utf8::is_ascii_chars("elfshaker_data"@));
    vstd::utf8::is_ascii_chars_encode_utf8("elfshaker_data"@);
    assert(dir.len() == 14);
    assert(dir[0] == 101);
    assert forall|j: int| 0 <= j < dir.len() implies #[trigger] dir[j] != 47 by {
        assert(dir[j] == "elfshaker_data"@[j] as u8);
    }
    let pred = |s: Seq<u8>| is_name(s);
    let n = lemma_first_slash(p);
    let name = p.take(n);
    assert forall|j: int| 0 <= j < name.len() implies #[trigger] name[j] != SEPARATOR by {
        assert(p[j] != 47);
    }
    lemma_segments_of_plain(name);
    lemma_names_push(Seq::empty(), name);
    assert(seq![name] =~= Seq::<Seq<u8>>::empty().push(name));
    reveal(Seq::filter);
    assert(names_of(Seq::<Seq<u8>>::empty()) =~= Seq::<Seq<u8>>::empty());
    if n < p.len() {
        let rest = p.skip(n + 1);
        assert(p =~= name.push(SEPARATOR) + rest);
        lemma_segments_concat(name, rest);
        Seq::filter_distributes_over_add(seq![name], segments(rest), pred);
        assert(name.len() > 0);
        assert(segments(p)[0] == name);
        if is_name(name) {
            assert(components(p)[0] == name);
        } else {
            assert(name =~= seq![DOT]);
            assert(components(p)[0] == seq![DOT]);
        }
    } else {
        assert(name =~= p);
        assert(segments(p)[0] == name);
        if p.len() > 0 {
            if is_name(name) {
                assert(components(p)[0] == name);
            } else {
                assert(components(p)[0] == seq![DOT]);
            }
        } else {
            assert(components(p).len() == 0);
        }
    }
    // The first component is the part before the first slash.
    if in_data_dir(p) {
        assert(name == dir);
    }
    if p.len() > dir.len() && p.take(dir.len() as int) == dir && p[dir.len() as int] == 47 {
        assert forall|j: int| 0 <= j < dir.len() implies p[j] != 47 by {
            assert(p.take(dir.len() as int)[j] == dir[j]);
        }
        assert(n == dir.len());
    }
    if p == dir {
        assert(n == dir.len()) by {
            if n < dir.len() {
                assert(dir[n] != 47);
            }
        }
    }
}

/// Without its first components, a path has those that are left.
pub proof fn law_components_of_the_rest(p: Seq<u8>, n: nat)
    requires
        n > 0,
    ensures
        n <= components(p).len() ==> components(skip_components(p, n)) == components(p).skip(
            n as int,
        ),
        n > components(p).len() ==> skip_components(p, n).len() == 0,
{
    let cs = components(p);
    let names = names_of(segments(p));
    lemma_names(p);
    if n <= cs.len() {
        let rest = cs.skip(n as int);
        assert forall|i: int| 0 <= i < rest.len() implies is_file_name(#[trigger] rest[i]) by {
            let k = if cs.len() == names.len() {
                i + n
            } else {
                i + n - 1
            };
            assert(rest[i] == names[k]);
            assert(is_plain(names[k]));
        }
        lemma_with_slashes_is_collected(rest);
        law_components_are_the_names(rest);
    } else {
        assert(cs.skip(cs.len() as int) =~= Seq::<Seq<u8>>::empty());
    }
}

} // verus!
