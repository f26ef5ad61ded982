use vstd::prelude::*;

verus! {

/// Brightness of a pixel whose point escaped after `count` iterations, or
/// stayed bounded (`None`, black): `255 - count as u8`.
pub open spec fn intensity_of(escape: Option<usize>) -> u8 {
    match escape {
        None => 0u8,
        Some(count) => (255 - count % 256) as u8,
    }
}

/// Intensity of an escape result: bounded points are black, a point that
/// escapes after `count` iterations gets `255 - count` (with `count` taken as
/// a byte), so fast escapes are bright.
pub fn intensity(escape: Option<usize>) -> (r: u8)
    ensures
        r == intensity_of(escape),
        escape is None ==> r == 0,
        escape matches Some(count) ==> (count <= 255 ==> r == 255 - count),
{
    match escape {
        None => 0,
        Some(count) => 255 - ((count % 256) as u8),
    }
}

} // verus!
