//! Names of the files and directories of a repository.

use vstd::prelude::*;

verus! {

/// The directory, below the root of the repository, with the repository data.
pub const REPO_DIR: &'static str = "elfshaker_data";

/// The file, in the data directory, that names the extracted snapshot.
pub const HEAD_FILE: &'static str = "HEAD";

/// The file, in the data directory, with the index of the repository.
pub const INDEX_FILE: &'static str = "index";

/// The directory, in the data directory, with the packs.
pub const PACKS_DIR: &'static str = "packs";

/// The extension of pack index files, without the dot before it.
pub const PACK_INDEX_EXTENSION: &'static str = "pack.idx";

/// The directory, in the data directory, with the unpacked objects.
pub const UNPACKED_DIR: &'static str = "unpacked";

/// The file, in the directory of the unpacked objects, with their index.
pub const UNPACKED_INDEX_FILE: &'static str = "unpacked.idx";

/// The directory, in the data directory, for files that are being written.
pub const TEMP_DIR: &'static str = "temp";

} // verus!
