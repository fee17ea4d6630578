//! The file-name scheme, the only persisted state of the tool: the active
//! file is `base.ext`, archive `i` (1 <= i <= N-1) is `base.i.ext`, a lower
//! index holding newer data.

use vstd::prelude::*;

verus! {

/// The ASCII decimal digits of `n`, most significant first, no leading
/// zeros.
pub open spec fn decimal_bytes(n: nat) -> Seq<u8>
    decreases n,
{
    if n < 10 {
        seq![(48 + n) as u8]
    } else {
        decimal_bytes(n / 10).push((48 + n % 10) as u8)
    }
}

/// The name of the slot: `base.ext` for the active file at index 0,
/// `base.<index>.ext` for an archive.
pub open spec fn spec_file_name(base: Seq<u8>, index: nat, ext: Seq<u8>) -> Seq<u8> {
    if index == 0 {
        base + seq![46u8] + ext
    } else {
        base + seq![46u8] + decimal_bytes(index) + seq![46u8] + ext
    }
}

/// Append a byte string.
fn push_bytes(out: &mut Vec<u8>, bytes: &[u8])
    ensures
        final(out)@ == old(out)@ + bytes@,
{
    let mut k: usize = 0;
    while k < bytes.len()
        invariant
            k <= bytes@.len(),
            out@ == old(out)@ + bytes@.take(k as int),
        decreases bytes@.len() - k,
    {
        out.push(bytes[k]);
        proof {
            assert(bytes@.take(k + 1).drop_last() =~= bytes@.take(k as int));
            assert(out@ =~= old(out)@ + bytes@.take(k + 1));
        }
        k = k + 1;
    }
    proof {
        assert(bytes@.take(bytes@.len() as int) =~= bytes@);
    }
}

/// Append the decimal digits of `n`, most significant first.
fn push_decimal(out: &mut Vec<u8>, n: u64)
    ensures
        final(out)@ == old(out)@ + decimal_bytes(n as nat),
    decreases n,
{
    if n < 10 {
        out.push(48 + (n as u8));
        proof {
            assert(out@ =~= old(out)@ + decimal_bytes(n as nat));
        }
    } else {
        push_decimal(out, n / 10);
        out.push(48 + ((n % 10) as u8));
        proof {
            assert(out@ =~= old(out)@ + decimal_bytes(n as nat));
        }
    }
}

/// Build the on-disk name of the slot at `index`, as bytes.
pub fn file_name(base: &[u8], index: u64, ext: &[u8]) -> (r: Vec<u8>)
    ensures
        r@ == spec_file_name(base@, index as nat, ext@),
{
    let mut r: Vec<u8> = Vec::new();
    push_bytes(&mut r, base);
    r.push(46);
    if index != 0 {
        push_decimal(&mut r, index);
        r.push(46);
    }
    push_bytes(&mut r, ext);
    proof {
        assert(r@ =~= spec_file_name(base@, index as nat, ext@));
    }
    r
}

} // verus!
