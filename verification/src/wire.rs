use vstd::prelude::*;

verus! {

/// The big-endian 16-bit value held at byte offset `i` of `b`.
pub open spec fn be16(b: Seq<u8>, i: int) -> int {
    b[i] * 256 + b[i + 1]
}

/// The big-endian 32-bit value held at byte offset `i` of `b`.
pub open spec fn be32(b: Seq<u8>, i: int) -> int {
    ((b[i] * 256 + b[i + 1]) * 256 + b[i + 2]) * 256 + b[i + 3]
}

/// An owned copy of a byte buffer.
pub fn clone_bytes(v: &Vec<u8>) -> (r: Vec<u8>)
    ensures
        r@ == v@,
{
    let mut r: Vec<u8> = Vec::new();
    let mut i: usize = 0;
    while i < v.len()
        invariant
            i <= v@.len(),
            r@ == v@.take(i as int),
        decreases v@.len() - i,
    {
        r.push(v[i]);
        i = i + 1;
        proof {
            assert(r@ =~= v@.take(i as int));
        }
    }
    proof {
        assert(v@.take(v@.len() as int) =~= v@);
    }
    r
}

/// An owned copy of a sequence of byte buffers.
pub fn clone_frames(v: &Vec<Vec<u8>>) -> (r: Vec<Vec<u8>>)
    ensures
        r.deep_view() == v.deep_view(),
{
    let mut r: Vec<Vec<u8>> = Vec::new();
    let mut i: usize = 0;
    while i < v.len()
        invariant
            i <= v.deep_view().len(),
            r.deep_view() == v.deep_view().take(i as int),
        decreases v.deep_view().len() - i,
    {
        let ghost r0 = r.deep_view();
        let ghost rs0 = r@;
        let item = clone_bytes(&v[i]);
        let ghost itemv = item@;
        proof {
            assert(itemv == v.deep_view()[i as int]);
        }
        r.push(item);
        i = i + 1;
        proof {
            assert(r0 == v.deep_view().take(i as int - 1));
            assert(v.deep_view().take(i as int - 1).len() == i as int - 1);
            assert(rs0.len() == i as int - 1);
            assert(r@ == rs0.push(item));
            assert(r.deep_view()[rs0.len() as int] == itemv);
            assert(forall|m: int| 0 <= m < rs0.len() ==> r@[m] == rs0[m]);
            assert(forall|m: int| 0 <= m < rs0.len() ==> r.deep_view()[m] == r0[m]);
            assert forall|m: int| 0 <= m < i implies r.deep_view()[m] == v.deep_view().take(
                i as int,
            )[m] by {
                assert(v.deep_view().take(i as int)[m] == v.deep_view()[m]);
                if m < rs0.len() {
                    assert(r.deep_view()[m] == r0[m]);
                    assert(r0[m] == v.deep_view().take(i as int - 1)[m]);
                    assert(v.deep_view().take(i as int - 1)[m] == v.deep_view()[m]);
                } else {
                    assert(m == rs0.len());
                    assert(r.deep_view()[m] == itemv);
                }
            }
            assert(r.deep_view() =~= v.deep_view().take(i as int));
        }
    }
    proof {
        assert(v.deep_view().take(v.deep_view().len() as int) =~= v.deep_view());
    }
    r
}

} // verus!
