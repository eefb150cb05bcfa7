use vstd::prelude::*;

verus! {

/// The byte that marks a gap in an aligned row (`-`).
pub const GAP: u8 = 45;

/// The blank that pads a column (` `).
pub const SPACE: u8 = 32;

/// The byte that closes a column (`|`).
pub const BAR: u8 = 124;

/// The byte that ends a line.
pub const NEWLINE: u8 = 10;

/// The byte of the digit zero (`0`).
pub const ZERO: u8 = 48;

/// The decimal digit for `d`, which is below ten.
pub open spec fn digit(d: nat) -> u8 {
    (ZERO + d) as u8
}

/// The decimal digits of `n`, most significant first, without leading zeros.
pub open spec fn digits(n: nat) -> Seq<u8>
    decreases n,
{
    if n < 10 {
        seq![digit(n)]
    } else {
        digits(n / 10).push(digit(n % 10))
    }
}

/// The decimal text of `v`: a minus sign for a negative number, then the
/// digits of its magnitude.
pub open spec fn decimal(v: int) -> Seq<u8> {
    if v < 0 {
        seq![GAP] + digits((-v) as nat)
    } else {
        digits(v as nat)
    }
}

/// `n` blanks.
pub open spec fn blanks(n: nat) -> Seq<u8> {
    Seq::new(n, |k: int| SPACE)
}

/// `s` followed by as many blanks as it takes to reach `width` bytes; a
/// longer `s` is left as it is.
pub open spec fn padded(s: Seq<u8>, width: nat) -> Seq<u8> {
    if s.len() >= width {
        s
    } else {
        s + blanks((width - s.len()) as nat)
    }
}

/// Appends the decimal digits of `n` to `out`.
pub fn push_digits(out: &mut Vec<u8>, n: u128)
    ensures
        final(out)@ == old(out)@ + digits(n as nat),
    decreases n,
{
    if n >= 10 {
        push_digits(out, n / 10);
    }
    let d: u8 = (n % 10) as u8;
    out.push(ZERO + d);
    assert(final(out)@ =~= old(out)@ + digits(n as nat));
}

/// Appends the decimal text of `v` to `out`.
pub fn push_decimal(out: &mut Vec<u8>, v: i128)
    ensures
        final(out)@ == old(out)@ + decimal(v as int),
{
    if v < 0 {
        out.push(GAP);
        let below: i128 = -(v + 1);
        let magnitude: u128 = below as u128 + 1;
        push_digits(out, magnitude);
    } else {
        push_digits(out, v as u128);
    }
    assert(final(out)@ =~= old(out)@ + decimal(v as int));
}

/// Appends `n` blanks to `out`.
pub fn push_blanks(out: &mut Vec<u8>, n: usize)
    ensures
        final(out)@ == old(out)@ + blanks(n as nat),
{
    let mut k: usize = 0;
    while k < n
        invariant
            k <= n,
            out@ == old(out)@ + blanks(k as nat),
        decreases n - k,
    {
        out.push(SPACE);
        k = k + 1;
        assert(out@ =~= old(out)@ + blanks(k as nat));
    }
}

/// Appends the decimal text of `v` to `out`, padded with blanks on the right
/// to `width` bytes.
pub fn push_padded_decimal(out: &mut Vec<u8>, v: i128, width: usize)
    ensures
        final(out)@ == old(out)@ + padded(decimal(v as int), width as nat),
{
    let start: usize = out.len();
    push_decimal(out, v);
    let written: usize = out.len() - start;
    if written < width {
        push_blanks(out, width - written);
    }
    assert(final(out)@ =~= old(out)@ + padded(decimal(v as int), width as nat));
}

} // verus!
