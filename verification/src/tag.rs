//! Entry identifiers: 32-bit values that encode a package index and an
//! in-package entry index.

use destiny_pkg::TagHash;
use vstd::prelude::*;

verus! {

/// Identifier of entry 0 of package 0; every synthesized identifier lies at or
/// above it.
pub const TAG_BASE: u32 = 0x8080_0000;

/// Number of entry slots that one package index spans.
pub const PACKAGE_SPAN: u32 = 8192;

/// The identifier that names entry `entry` of package `pkg_id`. Entry indices
/// wrap at [`PACKAGE_SPAN`].
pub open spec fn spec_tag_hash(pkg_id: u16, entry: u16) -> u32 {
    (0x8080_0000 + pkg_id * 8192 + entry % 8192) as u32
}

/// The package index that an identifier at or above [`TAG_BASE`] encodes.
pub open spec fn spec_pkg_id(value: u32) -> int {
    (value - 0x8080_0000) / 8192
}

/// Whether a 32-bit value is shaped like the identifier of a package entry:
/// inside the identifier range, with a package index from `0x9` up to but not
/// including `0xa00`. This says nothing about whether such an entry exists.
pub open spec fn spec_is_pkg_file(value: u32) -> bool {
    &&& 0x8080_0000 < value <= 0x81ff_ffff
    &&& 0x9 <= spec_pkg_id(value) < 0xa00
}

/// Calls `destiny_pkg::TagHash::new` and takes the raw value out of the
/// result. Trusted: the value is the base plus `pkg_id` shifted left by 13
/// bits plus `entry` modulo 8192; the sum stays below 2^32 for every pair of
/// 16-bit arguments, so the wrapping additions never wrap.
#[verifier::external_body]
pub(crate) fn tag_hash_new(pkg_id: u16, entry: u16) -> (value: u32)
    ensures
        value == spec_tag_hash(pkg_id, entry),
{
    TagHash::new(pkg_id, entry).0
}

/// Calls `destiny_pkg::TagHash::is_pkg_file` on the value. Trusted: it holds
/// exactly when the value is not the all-ones sentinel, lies above the base
/// and at or below `0x81ffffff`, and the package index, the offset from the
/// base shifted right by 13 bits, lies in `0x9..0xa00`.
#[verifier::external_body]
pub(crate) fn tag_is_pkg_file(value: u32) -> (plausible: bool)
    ensures
        plausible == spec_is_pkg_file(value),
{
    TagHash(value).is_pkg_file()
}

/// The identifier of the entry at position `index` of package `pkg_id`: the
/// position is taken modulo [`PACKAGE_SPAN`].
pub open spec fn spec_entry_tag(pkg_id: u16, index: int) -> u32 {
    (0x8080_0000 + pkg_id * 8192 + index % 8192) as u32
}

/// Synthesizes the identifier of the entry at position `index` of package
/// `pkg_id`.
pub fn entry_tag(pkg_id: u16, index: usize) -> (value: u32)
    ensures
        value == spec_entry_tag(pkg_id, index as int),
{
    let entry: u16 = (index % 0x1_0000) as u16;
    tag_hash_new(pkg_id, entry)
}

/// Entries of different packages never share an identifier, whatever their
/// positions are.
pub proof fn lemma_entry_tags_of_packages_differ(pkg_a: u16, index_a: int, pkg_b: u16, index_b: int)
    requires
        pkg_a != pkg_b,
    ensures
        spec_entry_tag(pkg_a, index_a) != spec_entry_tag(pkg_b, index_b),
{
}

/// Inside one package, two positions share an identifier exactly when they
/// are equal modulo [`PACKAGE_SPAN`].
pub proof fn lemma_entry_tags_of_one_package(pkg_id: u16, index_a: int, index_b: int)
    ensures
        spec_entry_tag(pkg_id, index_a) == spec_entry_tag(pkg_id, index_b) <==> index_a % 8192
            == index_b % 8192,
{
}

/// A synthesized identifier lies at or above [`TAG_BASE`] and gives back the
/// package index it was made from.
pub proof fn lemma_entry_tag_package(pkg_id: u16, index: int)
    ensures
        spec_entry_tag(pkg_id, index) >= TAG_BASE,
        spec_pkg_id(spec_entry_tag(pkg_id, index)) == pkg_id,
{
}

} // verus!
