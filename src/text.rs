use vstd::prelude::*;
use vstd::utf8::*;

verus! {

/// Whether two strings hold the same characters.
pub fn same_text(a: &str, b: &str) -> (r: bool)
    ensures
        r == (a@ == b@),
{
    let x = a.as_bytes();
    let y = b.as_bytes();
    proof {
        encode_utf8_decode_utf8(a@);
        encode_utf8_decode_utf8(b@);
        assert(x@ == encode_utf8(a@));
        assert(y@ == encode_utf8(b@));
    }
    if x.len() != y.len() {
        return false;
    }
    let mut i: usize = 0;
    while i < x.len()
        invariant
            x@ == encode_utf8(a@),
            y@ == encode_utf8(b@),
            x@.len() == y@.len(),
            i <= x@.len(),
            forall|k: int| 0 <= k < i ==> x@[k] == y@[k],
        decreases x@.len() - i,
    {
        if x[i] != y[i] {
            proof {
                assert(x@[i as int] != y@[i as int]);
                assert(x@ != y@);
                if a@ == b@ {
                    assert(encode_utf8(a@) == encode_utf8(b@));
                }
            }
            return false;
        }
        i += 1;
    }
    assert(x@ =~= y@);
    true
}

} // verus!
