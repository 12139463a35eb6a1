//! Embedding JSON in an HTML page: bytes an HTML parser reads as markup are written as JSON
//! escapes, so that the data cannot end its `<script>` element.

use vstd::prelude::*;

verus! {

/// What one byte of JSON becomes inside the page: `<`, `>` and `&` become `\u003c`, `\u003e`
/// and `\u0026`; any other byte stays.
pub open spec fn escaped_byte(b: u8) -> Seq<u8> {
    if b == 0x3c {
        seq![0x5cu8, 0x75, 0x30, 0x30, 0x33, 0x63]
    } else if b == 0x3e {
        seq![0x5cu8, 0x75, 0x30, 0x30, 0x33, 0x65]
    } else if b == 0x26 {
        seq![0x5cu8, 0x75, 0x30, 0x30, 0x32, 0x36]
    } else {
        seq![b]
    }
}

/// What the bytes `s` become inside the page.
pub open spec fn escaped_bytes(s: Seq<u8>) -> Seq<u8>
    decreases s.len(),
{
    if s.len() == 0 {
        Seq::empty()
    } else {
        escaped_bytes(s.drop_last()) + escaped_byte(s.last())
    }
}

/// Escapes the markup bytes of a piece of JSON for a `<script>` element.
pub fn escape_markup(bytes: &[u8]) -> (r: Vec<u8>)
    ensures
        r@ == escaped_bytes(bytes@),
{
    let mut out: Vec<u8> = Vec::new();
    let mut i: usize = 0;
    while i < bytes.len()
        invariant
            i <= bytes.len(),
            out@ == escaped_bytes(bytes@.take(i as int)),
        decreases bytes.len() - i,
    {
        let b = bytes[i];
        let ghost before = out@;
        if b == 0x3c || b == 0x3e || b == 0x26 {
            out.push(0x5c);
            out.push(0x75);
            out.push(0x30);
            out.push(0x30);
            if b == 0x26 {
                out.push(0x32);
                out.push(0x36);
            } else {
                out.push(0x33);
                out.push(if b == 0x3c { 0x63 } else { 0x65 });
            }
        } else {
            out.push(b);
        }
        assert(out@ =~= before + escaped_byte(b));
        assert(bytes@.take(i + 1).drop_last() =~= bytes@.take(i as int));
        i = i + 1;
    }
    assert(bytes@.take(bytes.len() as int) =~= bytes@);
    out
}

/// Escaped JSON holds no `<`, `>` or `&` byte.
pub proof fn lemma_escaped_has_no_markup(s: Seq<u8>)
    ensures
        forall|i: int| 0 <= i < escaped_bytes(s).len() ==> {
            let b = #[trigger] escaped_bytes(s)[i];
            b != 0x3c && b != 0x3e && b != 0x26
        },
    decreases s.len(),
{
    if s.len() > 0 {
        lemma_escaped_has_no_markup(s.drop_last());
        let p = escaped_bytes(s.drop_last());
        let e = escaped_byte(s.last());
        assert forall|i: int| 0 <= i < escaped_bytes(s).len() implies {
            let b = #[trigger] escaped_bytes(s)[i];
            b != 0x3c && b != 0x3e && b != 0x26
        } by {
            if i >= p.len() {
                assert(escaped_bytes(s)[i] == e[i - p.len()]);
            } else {
                assert(escaped_bytes(s)[i] == p[i]);
            }
        }
    }
}

} // verus!
