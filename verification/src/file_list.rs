//! The files that a new snapshot is made of.

use vstd::prelude::*;

use crate::error::IoError;
use crate::path::{
    byte_strings, components, copy_path, in_data_dir, is_data_dir, is_file_name, is_relative,
    law_components_are_the_names, law_data_directory_is_the_first_name,
    law_rest_of_a_canonical_path, lemma_skip_components_relative, path_components,
    path_is_relative, path_without_first, skip_components, with_slashes,
};

verus! {

/// The relative paths of a list.
pub open spec fn only_relative(paths: Seq<Seq<u8>>) -> Seq<Seq<u8>> {
    paths.filter(|p: Seq<u8>| is_relative(p))
}

/// The paths of a list that do not point into the data directory.
pub open spec fn outside_data_dir(paths: Seq<Seq<u8>>) -> Seq<Seq<u8>> {
    paths.filter(|p: Seq<u8>| !in_data_dir(p))
}

/// The paths below the repository.
pub open spec fn below_repository(
    repo: Seq<u8>,
    canonical: Seq<Result<Vec<u8>, IoError>>,
) -> Seq<Seq<u8>> {
    Seq::new(
        canonical.len(),
        |i: int| skip_components(canonical[i]->Ok_0@, components(repo).len()),
    )
}

/// The relative paths of a list, in order. Absolute paths are skipped.
pub fn relative_files(files: &[Vec<u8>]) -> (r: Vec<Vec<u8>>)
    ensures
        byte_strings(r@) == only_relative(byte_strings(files@)),
{
    let ghost all = byte_strings(files@);
    let ghost pred = |p: Seq<u8>| is_relative(p);
    let mut r: Vec<Vec<u8>> = Vec::new();
    let mut i: usize = 0;
    proof {
        reveal(Seq::filter);
        assert(byte_strings(r@) =~= only_relative(all.take(0)));
    }
    while i < files.len()
        invariant
            all == byte_strings(files@),
            pred == (|p: Seq<u8>| is_relative(p)),
            i <= files@.len(),
            byte_strings(r@) == only_relative(all.take(i as int)),
        decreases files.len() - i,
    {
        let ghost before = byte_strings(r@);
        proof {
            assert(all.take(i + 1) =~= all.take(i as int).push(all[i as int]));
            all.take(i as int).lemma_filter_push(all[i as int], pred);
        }
        if path_is_relative(files[i].as_slice()) {
            r.push(copy_path(files[i].as_slice()));
            assert(byte_strings(r@) =~= before.push(all[i as int]));
        }
        i = i + 1;
    }
    assert(all.take(all.len() as int) =~= all);
    r
}

/// The paths that do not point into the data directory, in order.
fn keep_outside_data_dir(paths: &[Vec<u8>]) -> (r: Vec<Vec<u8>>)
    requires
        forall|i: int| 0 <= i < paths@.len() ==> is_relative((#[trigger] paths@[i])@),
    ensures
        byte_strings(r@) == outside_data_dir(byte_strings(paths@)),
{
    let ghost all = byte_strings(paths@);
    let ghost pred = |p: Seq<u8>| !in_data_dir(p);
    let mut r: Vec<Vec<u8>> = Vec::new();
    let mut i: usize = 0;
    proof {
        reveal(Seq::filter);
        assert(byte_strings(r@) =~= outside_data_dir(all.take(0)));
    }
    while i < paths.len()
        invariant
            forall|i: int| 0 <= i < paths@.len() ==> is_relative((#[trigger] paths@[i])@),
            all == byte_strings(paths@),
            pred == (|p: Seq<u8>| !in_data_dir(p)),
            i <= paths@.len(),
            byte_strings(r@) == outside_data_dir(all.take(i as int)),
        decreases paths.len() - i,
    {
        let ghost before = byte_strings(r@);
        proof {
            assert(all.take(i + 1) =~= all.take(i as int).push(all[i as int]));
            all.take(i as int).lemma_filter_push(all[i as int], pred);
        }
        if !is_data_dir(paths[i].as_slice()) {
            r.push(copy_path(paths[i].as_slice()));
            assert(byte_strings(r@) =~= before.push(all[i as int]));
        }
        i = i + 1;
    }
    assert(all.take(all.len() as int) =~= all);
    r
}

/// What is left of the paths is relative: the repository has components, or
/// the paths are relative anyway, or one of them is missing, so that nothing
/// is made of the others.
pub open spec fn can_clean(repo: Seq<u8>, canonical: Seq<Result<Vec<u8>, IoError>>) -> bool {
    ||| components(repo).len() > 0
    ||| exists|i: int| 0 <= i < canonical.len() && (#[trigger] canonical[i]) is Err
    ||| forall|i: int|
        0 <= i < canonical.len() ==> is_relative((#[trigger] canonical[i])->Ok_0@)
}

/// Cleans the list of file paths relative to the repository root, and skips
/// any paths pointing into the repository data directory. `canonical` holds
/// the canonical form of each of the [`relative_files`], or why there is none.
pub fn clean_file_list(repo_dir: &[u8], canonical: Vec<Result<Vec<u8>, IoError>>) -> (r: Result<
    Vec<Vec<u8>>,
    IoError,
>)
    requires
        can_clean(repo_dir@, canonical@),
    ensures
        match r {
            Ok(paths) => {
                &&& forall|i: int| 0 <= i < canonical@.len() ==> (#[trigger] canonical@[i]) is Ok
                &&& byte_strings(paths@) == outside_data_dir(
                    below_repository(repo_dir@, canonical@),
                )
            },
            Err(e) => exists|i: int|
                {
                    &&& 0 <= i < canonical@.len()
                    &&& #[trigger] canonical@[i] == Err::<Vec<u8>, IoError>(e)
                    &&& forall|j: int| 0 <= j < i ==> (#[trigger] canonical@[j]) is Ok
                },
        },
{
    let ghost all = below_repository(repo_dir@, canonical@);
    let skipped = path_components(repo_dir).len();
    assert(skipped == components(repo_dir@).len());
    let mut below: Vec<Vec<u8>> = Vec::new();
    for item in it: canonical
        invariant
            it.seq() == canonical@,
            all == below_repository(repo_dir@, canonical@),
            skipped == components(repo_dir@).len(),
            forall|j: int| 0 <= j < it.index() ==> (#[trigger] canonical@[j]) is Ok,
            byte_strings(below@) =~= all.take(it.index()),
    {
        let ghost i = it.index();
        assert(item == canonical@[i]);
        match item {
            Err(e) => {
                return Err(e);
            },
            Ok(path) => {
                let ghost before = byte_strings(below@);
                below.push(path_without_first(path.as_slice(), skipped));
                assert(byte_strings(below@) =~= before.push(all[i]));
            },
        }
    }
    proof {
        assert(byte_strings(below@) =~= all);
        assert forall|i: int| 0 <= i < below@.len() implies is_relative(
            (#[trigger] below@[i])@,
        ) by {
            assert(all[i] == below@[i]@);
            lemma_skip_components_relative(canonical@[i]->Ok_0@, skipped as nat);
        }
    }
    Ok(keep_outside_data_dir(below.as_slice()))
}

/// The cleaned paths are those below the repository that do not point into the
/// data directory, and they are relative.
pub proof fn law_cleaned_paths(
    repo: Seq<u8>,
    canonical: Seq<Result<Vec<u8>, IoError>>,
    p: Seq<u8>,
)
    requires
        can_clean(repo, canonical),
        forall|i: int| 0 <= i < canonical.len() ==> (#[trigger] canonical[i]) is Ok,
    ensures
        outside_data_dir(below_repository(repo, canonical)).contains(p) <==> below_repository(
            repo,
            canonical,
        ).contains(p) && !in_data_dir(p),
        outside_data_dir(below_repository(repo, canonical)).contains(p) ==> is_relative(p),
{
    let all = below_repository(repo, canonical);
    let kept = outside_data_dir(all);
    let pred = |p: Seq<u8>| !in_data_dir(p);
    if kept.contains(p) {
        let x = choose|x: int| 0 <= x < kept.len() && kept[x] == p;
        all.lemma_filter_pred(pred, x);
        all.lemma_filter_contains_rev(pred, p);
        let i = choose|i: int| 0 <= i < all.len() && all[i] == p;
        assert(canonical[i] is Ok);
        lemma_skip_components_relative(canonical[i]->Ok_0@, components(repo).len());
    }
    if all.contains(p) && !in_data_dir(p) {
        let i = choose|i: int| 0 <= i < all.len() && all[i] == p;
        all.lemma_filter_contains(pred, i);
    }
}

/// The relative files of a list are those of its parts, one after the other. A
/// file that starts with a slash is skipped, every other one is kept as it is.
pub proof fn law_relative_files_of_parts(a: Seq<Seq<u8>>, b: Seq<Seq<u8>>, p: Seq<u8>)
    ensures
        only_relative(a + b) == only_relative(a) + only_relative(b),
        only_relative(Seq::empty()).len() == 0,
        only_relative(seq![p]) == (if p.len() > 0 && p[0] == 47 {
            Seq::<Seq<u8>>::empty()
        } else {
            seq![p]
        }),
{
    let pred = |p: Seq<u8>| is_relative(p);
    Seq::filter_distributes_over_add(a, b, pred);
    reveal(Seq::filter);
    Seq::<Seq<u8>>::empty().lemma_filter_push(p, pred);
    assert(seq![p] =~= Seq::<Seq<u8>>::empty().push(p));
    assert(only_relative(seq![p]) =~= (if is_relative(p) {
        seq![p]
    } else {
        Seq::<Seq<u8>>::empty()
    }));
}

/// The cleaned files of a list are those of its parts, one after the other.
pub proof fn law_cleaned_files_of_parts(
    repo: Seq<u8>,
    a: Seq<Result<Vec<u8>, IoError>>,
    b: Seq<Result<Vec<u8>, IoError>>,
)
    ensures
        outside_data_dir(below_repository(repo, a + b)) == outside_data_dir(
            below_repository(repo, a),
        ) + outside_data_dir(below_repository(repo, b)),
        outside_data_dir(below_repository(repo, Seq::empty())).len() == 0,
{
    let pred = |p: Seq<u8>| !in_data_dir(p);
    assert(below_repository(repo, a + b) =~= below_repository(repo, a) + below_repository(repo, b));
    Seq::filter_distributes_over_add(below_repository(repo, a), below_repository(repo, b), pred);
    reveal(Seq::filter);
    assert(below_repository(repo, Seq::empty()) =~= Seq::<Seq<u8>>::empty());
}

/// A file of the repository is kept under its path in the repository, unless
/// the first name of that path is the data directory: whatever lies in the data
/// directory, however deep, is left out.
pub proof fn law_cleaned_file(
    repo: Seq<u8>,
    dirs: Seq<Seq<u8>>,
    names: Seq<Seq<u8>>,
    file: Result<Vec<u8>, IoError>,
)
    requires
        forall|i: int| 0 <= i < dirs.len() ==> is_file_name(#[trigger] dirs[i]),
        forall|i: int| 0 <= i < names.len() ==> is_file_name(#[trigger] names[i]),
        repo == seq![47u8] + with_slashes(dirs),
        file matches Ok(path) && path@ == seq![47u8] + with_slashes(dirs + names),
    ensures
        outside_data_dir(below_repository(repo, seq![file])) == (if names.len() > 0 && names[0]
            == vstd::utf8::encode_utf8("elfshaker_data"@) {
            Seq::<Seq<u8>>::empty()
        } else {
            seq![with_slashes(names)]
        }),
{
    let pred = |p: Seq<u8>| !in_data_dir(p);
    let all = dirs + names;
    let dir = vstd::utf8::encode_utf8("elfshaker_data"@);
    assert forall|i: int| 0 <= i < all.len() implies is_file_name(#[trigger] all[i]) by {
        if i < dirs.len() {
            assert(all[i] == dirs[i]);
        } else {
            assert(all[i] == names[i - dirs.len()]);
        }
    }
    law_components_are_the_names(dirs);
    let n = components(repo).len();
    assert(n == dirs.len() + 1);
    law_rest_of_a_canonical_path(all, n);
    let p = with_slashes(names);
    if n <= all.len() {
        assert(all.skip(n - 1) =~= names);
    } else {
        assert(names.len() == 0);
        assert(skip_components(file->Ok_0@, n) =~= p);
    }
    assert(below_repository(repo, seq![file]) =~= seq![p]);
    reveal(Seq::filter);
    Seq::<Seq<u8>>::empty().lemma_filter_push(p, pred);
    assert(seq![p] =~= Seq::<Seq<u8>>::empty().push(p));
    law_components_are_the_names(names);
    assert(in_data_dir(p) <==> names.len() > 0 && names[0] == dir);
    assert(outside_data_dir(seq![p]) =~= (if in_data_dir(p) {
        Seq::<Seq<u8>>::empty()
    } else {
        seq![p]
    }));
}

/// A path that is the data directory, or starts with it and a slash, is in no
/// cleaned list; every other relative path below the repository is.
pub proof fn law_data_directory_is_left_out(paths: Seq<Seq<u8>>, p: Seq<u8>)
    requires
        p.len() == 0 || p[0] != 47,
    ensures
        ({
            let dir = vstd::utf8::encode_utf8("elfshaker_data"@);
            outside_data_dir(paths).contains(p) <==> paths.contains(p) && p != dir && !(p.len()
                > dir.len() && p.take(dir.len() as int) == dir && p[dir.len() as int] == 47)
        }),
{
    let pred = |p: Seq<u8>| !in_data_dir(p);
    law_data_directory_is_the_first_name(p);
    let kept = outside_data_dir(paths);
    if kept.contains(p) {
        let x = choose|x: int| 0 <= x < kept.len() && kept[x] == p;
        paths.lemma_filter_pred(pred, x);
        paths.lemma_filter_contains_rev(pred, p);
    }
    if paths.contains(p) && !in_data_dir(p) {
        let i = choose|i: int| 0 <= i < paths.len() && paths[i] == p;
        paths.lemma_filter_contains(pred, i);
    }
}

/// Each file loses as many components as the path of the repository has.
pub proof fn law_files_lose_the_repository(
    repo: Seq<u8>,
    canonical: Seq<Result<Vec<u8>, IoError>>,
    i: int,
)
    requires
        0 <= i < canonical.len(),
    ensures
        below_repository(repo, canonical).len() == canonical.len(),
        below_repository(repo, canonical)[i] == skip_components(
            canonical[i]->Ok_0@,
            components(repo).len(),
        ),
{
}

} // verus!
