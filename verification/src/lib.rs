//! Core library for the `rzc` file compressor.
//!
//! Provides the `.rzst` container format (RZC1), zstd compression, integrity
//! checks (SHA-256), multi-file pack archives, and what the command line decides
//! and prints. The library works on bytes and text; reading and writing files
//! is up to its callers.

pub mod binary64;
pub mod bytes;
pub mod codec;
pub mod container;
pub mod dict;
pub mod diff;
pub mod doctor;
pub mod error;
pub mod exclude;
pub mod grep;
pub mod header;
pub mod inspect;
pub mod lines;
pub mod member;
pub mod order;
pub mod pack;
pub mod packing;
pub mod paths;
pub mod plan;
pub mod preset;
pub mod repack;
pub mod report;
pub mod restore;
pub mod seal;
pub mod select;
pub mod text;
pub mod tree;
pub mod unpack;

pub use crate::codec::{sha256, HASH_LEN};
pub use crate::container::{
    compress_bytes, compress_bytes_dict, compress_bytes_dry_run, compress_bytes_dry_run_dict,
    decompress_reader, decompress_reader_dict, CountingSink, DryRunStats,
};
pub use crate::dict::{train_dictionary, DEFAULT_MAX_DICT_SIZE, MIN_SAMPLE_FILES};
pub use crate::diff::{diff_archives, DiffEntry, DiffResult, DiffStatus};
pub use crate::doctor::{doctor, DoctorReport};
pub use crate::error::{Error, ErrorKind};
pub use crate::exclude::{build_exclude_set, is_excluded};
pub use crate::grep::{grep_archive, GrepMatch, GrepResult, DEFAULT_GREP_MAX_SIZE};
pub use crate::header::{
    peek_version, read_header, write_header, write_header_v2, Header, MAGIC, VERSION, VERSION_V1,
    VERSION_V3,
};
pub use crate::inspect::{
    cat_member, inspect_file, list_archive, verify_file, ArchiveInfo, ListResult,
};
pub use crate::lines::IoStats;
pub use crate::pack::{
    extract_pack_member, inspect_pack, start_verify, verify_next, verify_pack, PackInfo,
    PackMemberInfo,
};
pub use crate::packing::{pack_files, PackInput, PackStats};
pub use crate::paths::{
    append_suffix, default_decompressed_path, is_stdio_path, seal_sidecar_path,
    strip_path_components,
};
pub use crate::preset::{resolve_threads, Preset, DEFAULT_LEVEL};
pub use crate::repack::{repack_archive, RepackStats};
pub use crate::report::{bytes_per_second, display_bytes, format_duration, Elapsed};
pub use crate::seal::{check_seal, seal_archive, SealInfo};
pub use crate::select::PackOpts;
pub use crate::tree::{archive_tree, format_path_tree};
pub use crate::unpack::{UnpackMemberStats, UnpackOpts, UnpackStats};
