//! Binary STL.
//!
//! 50 bytes per triangle — a normal, three vertices, and a two-byte attribute
//! field nobody reads — with no index buffer, so the same vertex is written once
//! per triangle that touches it.

use vstd::prelude::*;
use vstd::string;
use vstd::utf8;
use crate::export;
use crate::mesh::{Facet, Solid};
use crate::number::{Op, Real};

verus! {

/// The text, padded with zeroes to 80 bytes.
pub open spec fn header() -> Seq<u8> {
    let text = utf8::encode_utf8("relief-forge binary STL"@);
    text + Seq::new((80 - text.len()) as nat, |i: int| 0u8)
}

/// A facet: normal, three corners, and an attribute count of zero. Some tools
/// smuggle colour in there; no slicer agrees on how.
pub open spec fn record(t: Facet) -> Seq<u8> {
    export::triple(t.normal) + export::triple(t.a) + export::triple(t.b) + export::triple(t.c)
        + seq![0u8, 0u8]
}

pub open spec fn records<F: Fn(Op, Real, Real) -> Real>(s: Solid, f: F) -> spec_fn(int) -> Seq<
    u8,
> {
    |i: int| record(s.facet_of(f, s.mesh()[i]))
}

/// The count in the header, which has 32 bits for it.
pub open spec fn counted(s: Solid) -> u32 {
    (s.mesh().len() % 0x1_0000_0000) as u32
}

pub open spec fn file<F: Fn(Op, Real, Real) -> Real>(s: Solid, f: F) -> Seq<u8> {
    header() + export::word(counted(s)) + export::pieces(s.mesh().len(), records(s, f))
}

pub proof fn lemma_header_len()
    ensures
        utf8::encode_utf8("relief-forge binary STL"@).len() == 23,
        header().len() == 80,
{
    reveal_strlit("relief-forge binary STL");
    assert(string::is_ascii("relief-forge binary STL"));
    string::is_ascii_spec_bytes("relief-forge binary STL");
}

pub proof fn lemma_record_len(t: Facet)
    ensures
        record(t).len() == 50,
{
}

pub(crate) fn put_record(out: &mut Vec<u8>, t: Facet)
    ensures
        final(out)@ == old(out)@ + record(t),
{
    let ghost was = out@;
    export::put_triple(out, t.normal);
    export::put_triple(out, t.a);
    export::put_triple(out, t.b);
    export::put_triple(out, t.c);
    out.push(0);
    out.push(0);
    assert(out@ =~= was + record(t));
}

fn put_header(out: &mut Vec<u8>)
    ensures
        final(out)@ == old(out)@ + header(),
{
    let ghost was = out@;
    let ghost text = utf8::encode_utf8("relief-forge binary STL"@);
    proof {
        lemma_header_len();
    }
    export::put_text(out, "relief-forge binary STL");
    let mut n: usize = 23;
    assert(out@ =~= was + text + Seq::new(0, |i: int| 0u8));
    while n < 80
        invariant
            23 <= n <= 80,
            out@ == was + text + Seq::new((n - 23) as nat, |i: int| 0u8),
        decreases 80 - n,
    {
        out.push(0);
        n = n + 1;
        assert(out@ =~= was + text + Seq::new((n - 23) as nat, |i: int| 0u8));
    }
    assert(out@ =~= was + header());
}

/// The header and the count.
pub(crate) fn put_head(solid: &Solid, out: &mut Vec<u8>)
    requires
        solid.wf(),
    ensures
        final(out)@ == old(out)@ + (header() + export::word(counted(*solid))),
{
    let ghost was = out@;
    put_header(out);
    let count: u32 = (solid.triangle_count() as u64 % 0x1_0000_0000) as u32;
    export::put_word(out, count);
    assert(out@ =~= was + (header() + export::word(counted(*solid))));
}

/// The file is as long as its triangle count says: 84 bytes of header and 50
/// for each triangle.
pub proof fn law_size<F: Fn(Op, Real, Real) -> Real>(s: Solid, f: F)
    ensures
        file(s, f).len() == 84 + 50 * s.mesh().len(),
        file(s, f).subrange(80, 84) == export::word(counted(s)),
        s.mesh().len() <= u32::MAX ==> counted(s) == s.mesh().len(),
{
    let piece = records(s, f);
    let n = s.mesh().len();
    assert forall|k: int| 0 <= k < n implies (#[trigger] piece(k)).len() == 50 by {
        lemma_record_len(s.facet_of(f, s.mesh()[k]));
    }
    lemma_parts(n, piece);
}

/// Where the parts of the file lie.
proof fn lemma_parts(n: nat, piece: spec_fn(int) -> Seq<u8>)
    requires
        forall|i: int| 0 <= i < n ==> (#[trigger] piece(i)).len() == 50,
    ensures
        ({
            let count = (n % 0x1_0000_0000) as u32;
            let r = header() + export::word(count) + export::pieces(n, piece);
            &&& r.len() == 84 + 50 * n
            &&& r.subrange(80, 84) == export::word(count)
            &&& n <= u32::MAX ==> count == n
            &&& forall|i: int|
                0 <= i < n ==> 84 + 50 * i + 50 <= r.len() && r.subrange(
                    84 + 50 * i,
                    84 + 50 * i + 50,
                ) == #[trigger] piece(i)
        }),
{
    let count = (n % 0x1_0000_0000) as u32;
    lemma_header_len();
    export::lemma_pieces_len(n, piece, 50);
    let top = header() + export::word(count);
    let body = export::pieces(n, piece);
    assert((top + body).subrange(80, 84) =~= export::word(count));
    assert forall|i: int| 0 <= i < n implies 84 + 50 * i + 50 <= (top + body).len() && (top
        + body).subrange(84 + 50 * i, 84 + 50 * i + 50) == #[trigger] piece(i) by {
        export::lemma_piece_at(n, piece, 50, i);
        assert((top + body).subrange(84 + 50 * i, 84 + 50 * i + 50) =~= body.subrange(
            50 * i,
            50 * i + 50,
        ));
    }
}

/// Every triangle is read back, in order, from where the sizes say.
pub proof fn law_facets_read_back<F: Fn(Op, Real, Real) -> Real>(s: Solid, f: F, i: int)
    requires
        0 <= i < s.mesh().len(),
    ensures
        84 + 50 * i + 50 <= file(s, f).len(),
        file(s, f).subrange(84 + 50 * i, 84 + 50 * i + 50) == record(s.facet_of(f, s.mesh()[i])),
{
    let piece = records(s, f);
    let n = s.mesh().len();
    assert forall|k: int| 0 <= k < n implies (#[trigger] piece(k)).len() == 50 by {
        lemma_record_len(s.facet_of(f, s.mesh()[k]));
    }
    lemma_parts(n, piece);
    assert(piece(i) == record(s.facet_of(f, s.mesh()[i])));
}

} // verus!
