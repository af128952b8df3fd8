use vstd::prelude::*;

verus! {

use vstd::arithmetic::div_mod::lemma_div_is_strictly_smaller;

/// Appends a byte string to the one being built.
pub fn append_bytes(dst: &mut Vec<u8>, src: &[u8])
    ensures
        final(dst)@ == old(dst)@ + src@,
{
    dst.extend_from_slice(src);
    proof {
        assert(forall|i: int| 0 <= i < old(dst)@.len() ==> dst@[i] == old(dst)@[i]);
        assert(forall|i: int|
            old(dst)@.len() <= i < dst@.len() ==> cloned::<u8>(src@[i - old(dst)@.len()], dst@[i]));
        assert(dst@ =~= old(dst)@ + src@);
    }
}

/// Copies a byte string.
pub fn copied(v: &Vec<u8>) -> (r: Vec<u8>)
    ensures
        r@ == v@,
{
    let mut r: Vec<u8> = Vec::new();
    append_bytes(&mut r, v.as_slice());
    proof {
        assert(r@ =~= v@);
    }
    r
}

/// The decimal digits of a nonnegative number, most significant first.
pub open spec fn dec_digits(n: int) -> Seq<u8>
    recommends
        n >= 0,
    decreases n,
{
    if n < 10 {
        seq![('0' as u8 + n) as u8]
    } else {
        dec_digits(n / 10).push(('0' as u8 + n % 10) as u8)
    }
}

/// Writes a number in decimal.
pub fn dec_u64(n: u64) -> (r: Vec<u8>)
    ensures
        r@ == dec_digits(n as int),
    decreases n,
{
    if n < 10 {
        let mut r: Vec<u8> = Vec::new();
        r.push('0' as u8 + (n as u8));
        proof {
            assert(r@ =~= dec_digits(n as int));
        }
        r
    } else {
        proof {
            lemma_div_is_strictly_smaller(n as int, 10);
        }
        let mut r = dec_u64(n / 10);
        r.push('0' as u8 + ((n % 10) as u8));
        r
    }
}

} // verus!
