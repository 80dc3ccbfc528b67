pub mod alias;
pub mod alias_groups;
pub mod batch;
pub mod cache;
pub mod cluster;
pub mod fingerprint;
pub mod graph;
pub mod hashing;
pub mod packing;
pub mod paths;
pub mod report;
pub mod search;
pub mod text;
pub mod union_find;

pub use alias::{
    expand_search_terms_with_aliases, merge_alias_map, normalize_search_term,
    normalize_search_terms, AliasMap,
    AliasWarning, ALIAS_FILE_NAME,
};
pub use alias_groups::{
    alias_map_from_groups, merge_alias_terms, normalize_alias_groups, remove_alias_terms,
};
pub use batch::{
    finish_batch, plan_batch, BatchPlan, CacheWarning, DuplicateWarning, HashComputation,
    PendingItem,
};
pub use cache::{hash_from_row, stored_row, CacheError, CacheRow, FileFingerprint, HashCache};
pub use cluster::{group_duplicates, same_parent, DuplicateGroup};
pub use fingerprint::{FuzzyHash, FuzzyHashAlgorithm};
pub use hashing::compute_fuzzy_hash;
pub use packing::{pack_bits, unpack_bits};
pub use paths::{
    alias_path_for_root, booru_path_for_image, default_root, default_root_with, expand_tilde,
    expand_tilde_with, metadata_path_for_image, normalize_image_path, BooruConfig,
};
pub use report::{build_report, fingerprint_indices_ok, DuplicateReport};
pub use search::{EditUpdate, ScanWarning, SearchQuery, SearchResult, TagEdits};
