//! Deduplication of the files of a directory by the SHA-256 digest of their
//! contents: the digest of each regular file, the grouping of files by digest,
//! and the choice of one survivor in each group.
pub mod digest;
pub mod scan;
pub mod dedup;
