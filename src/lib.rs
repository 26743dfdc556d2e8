//! Perceptual image fingerprints (average hash), their comparison, and a
//! tabular dictionary that maps fingerprints to links.

pub mod ahash;
pub mod dictionary;
pub mod grid;
pub mod proximity;
pub mod trim;

use crate::ahash::{
    compute_image_hash, effective_size, fingerprint_of, luma_samples, hex_width, image_hash_of, is_lower_hex_digit, text_result,
    valid_size, HashError,
};
use crate::dictionary::pairs_view;
use crate::grid::{GridModel, PixelGrid};
use crate::trim::{remove_white_borders, trimmed};
use vstd::prelude::*;

verus! {

/// The outcome of hashing a grid, trimmed first when `trim` is set.
pub open spec fn hash_result(g: GridModel, trim: bool, hash_size: Option<u32>) -> Result<
    Seq<char>,
    HashError,
> {
    image_hash_of(if trim { trimmed(g) } else { g }, hash_size)
}

/// Computes the fingerprint of an image, first cropping its near-white
/// margins when `remove_white_border` is set. The side of the sample grid is
/// `hash_size`, 8 when `None`; zero or more than eight is refused, and every
/// other side gives a fingerprint.
pub fn compute_hash(image: PixelGrid, remove_white_border: bool, hash_size: Option<u32>) -> (r:
    Result<String, HashError>)
    requires
        image.wf(),
    ensures
        text_result(r) == hash_result(image@, remove_white_border, hash_size),
        valid_size(effective_size(hash_size)) <==> r is Ok,
        r matches Ok(s) ==> s@.len() == hex_width(effective_size(hash_size) as nat) && forall|
            i: int,
        | 0 <= i < s@.len() ==> is_lower_hex_digit(#[trigger] s@[i]),
        ({
            let g = if remove_white_border {
                trimmed(image@)
            } else {
                image@
            };
            let n = effective_size(hash_size);
            g.width == n && g.height == n ==> (r matches Ok(s) ==> s@ == fingerprint_of(
                luma_samples(g),
                n as nat,
            ))
        }),
{
    let processed = if remove_white_border {
        remove_white_borders(&image)
    } else {
        image
    };
    compute_image_hash(&processed, hash_size)
}

/// Hashing is deterministic: equal images, trimming choices and sizes give
/// equal results.
pub proof fn lemma_hash_deterministic(
    a: GridModel,
    b: GridModel,
    trim: bool,
    hash_size: Option<u32>,
)
    requires
        a == b,
    ensures
        hash_result(a, trim, hash_size) == hash_result(b, trim, hash_size),
{
}

/// The link of the first entry whose fingerprint is exactly `hash`.
pub fn resolve_link(links: &Vec<(String, String)>, hash: &String) -> (r: Option<String>)
    ensures
        match r {
            Some(l) => exists|i: int|
                0 <= i < links@.len() && (#[trigger] pairs_view(links@)[i]).0 == hash@
                    && pairs_view(links@)[i].1 == l@ && forall|j: int|
                    0 <= j < i ==> (#[trigger] pairs_view(links@)[j]).0 != hash@,
            None => forall|j: int|
                0 <= j < links@.len() ==> (#[trigger] pairs_view(links@)[j]).0 != hash@,
        },
{
    let ghost pv = pairs_view(links@);
    let mut i: usize = 0;
    while i < links.len()
        invariant
            pv == pairs_view(links@),
            i <= links@.len(),
            forall|j: int| 0 <= j < i ==> (#[trigger] pv[j]).0 != hash@,
        decreases links@.len() - i,
    {
        if links[i].0 == *hash {
            let l = links[i].1.clone();
            assert(pv[i as int].0 == hash@);
            return Some(l);
        }
        i = i + 1;
    }
    None
}

} // verus!
