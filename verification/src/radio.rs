//! The radiotap prefix of every captured radio frame, behind a trusted
//! wrapper over the `radiotap` crate.
//!
//! A capture starts with a variable-length radiotap header.  The engine
//! needs three things from it: its length (to find the link-layer header
//! behind it), whether the frame failed its check sequence, and whether the
//! check sequence still trails the payload.

use vstd::prelude::*;

verus! {

/// What parsing the radiotap prefix of `d` yields: `None` when the bytes are
/// not a well-formed radiotap header, otherwise the header length and, when
/// the flags field is present, the pair (frame failed its check sequence,
/// check sequence still trails the frame).  The parse is a function of the
/// bytes alone.
pub uninterp spec fn radiotap_parse(d: Seq<u8>) -> Option<(usize, Option<(bool, bool)>)>;

/// Whether the chain of present words starting at byte `i` announces a
/// vendor namespace.  Each present word is four little-endian bytes, so its
/// bits 29 to 31 live in the word's last byte: bit 30 announces a vendor
/// namespace unless bit 29 moves back to the radiotap namespace first, and
/// bit 31 says another present word follows.  A chain that runs past the
/// bytes announces nothing (the parser rejects such input before any field
/// is read).
pub open spec fn spec_vendor_ns_from(d: Seq<u8>, i: int) -> bool
    decreases d.len() - i,
{
    if i < 0 || i + 4 > d.len() {
        false
    } else if d[i + 3] & 0x40 != 0 && d[i + 3] & 0x20 == 0 {
        true
    } else if d[i + 3] & 0x80 != 0 {
        spec_vendor_ns_from(d, i + 4)
    } else {
        false
    }
}

/// Whether the capture's present bitmap, which starts at byte four of the
/// radiotap header, announces a vendor namespace anywhere in its chain.
pub open spec fn spec_vendor_ns_announced(d: Seq<u8>) -> bool {
    spec_vendor_ns_from(d, 4)
}

/// Walks the present-word chain of a radiotap header and reports whether it
/// announces a vendor namespace.
pub(crate) fn vendor_ns_announced(data: &[u8]) -> (r: bool)
    ensures
        r == spec_vendor_ns_announced(data@),
{
    let mut i: usize = 4;
    loop
        invariant
            4 <= i,
            spec_vendor_ns_announced(data@) == spec_vendor_ns_from(data@, i as int),
        decreases data@.len() - i,
    {
        if i >= data.len() || data.len() - i < 4 {
            return false;
        }
        let b = data[i + 3];
        if b & 0x40 != 0 && b & 0x20 == 0 {
            return true;
        }
        if b & 0x80 == 0 {
            return false;
        }
        i = i + 4;
    }
}

/// Relies on radiotap::Radiotap::from_bytes: the parse depends on the input
/// bytes alone, and a parsed header never claims a length beyond the input
/// (inputs shorter than the claimed length are rejected).  A capture whose
/// present bitmap announces a vendor namespace is excluded: on such input
/// the field walk adds the vendor section's skip length to a field's end
/// without holding it against the buffer again, and an overlong skip makes
/// the walk read out of bounds.
#[verifier::external_body]
pub(crate) fn parse_radiotap(data: &[u8]) -> (r: Option<(usize, Option<(bool, bool)>)>)
    requires
        !spec_vendor_ns_announced(data@),
    ensures
        r == radiotap_parse(data@),
        r matches Some(info) ==> info.0 <= data@.len(),
{
    match radiotap::Radiotap::from_bytes(data) {
        Ok(rt) => Some((rt.header.length, rt.flags.map(|f| (f.bad_fcs, f.fcs)))),
        Err(_) => None,
    }
}

} // verus!
