//! Numbers as bytes, the most significant first.

use vstd::prelude::*;

verus! {

/// The number that some bytes write.
pub open spec fn number_of(bytes: Seq<u8>) -> nat
    decreases bytes.len(),
{
    if bytes.len() == 0 {
        0
    } else {
        number_of(bytes.drop_last()) * 256 + bytes.last() as nat
    }
}

/// `n` in `count` bytes.
pub open spec fn bytes_of(n: nat, count: nat) -> Seq<u8>
    decreases count,
{
    if count == 0 {
        Seq::empty()
    } else {
        bytes_of(n / 256, (count - 1) as nat).push((n % 256) as u8)
    }
}

/// The first number that `count` bytes cannot write.
pub open spec fn reach(count: nat) -> nat
    decreases count,
{
    if count == 0 {
        1
    } else {
        reach((count - 1) as nat) * 256
    }
}

/// Writing a number that fits and reading it gives the number back, and reading some bytes and
/// writing the number gives the bytes back.
pub proof fn law_number_bytes(n: nat, count: nat, bytes: Seq<u8>)
    ensures
        bytes_of(n, count).len() == count,
        n < reach(count) ==> number_of(bytes_of(n, count)) == n,
        number_of(bytes) < reach(bytes.len()),
        bytes_of(number_of(bytes), bytes.len()) == bytes,
    decreases count + bytes.len(),
{
    if count > 0 {
        let rest = bytes_of(n / 256, (count - 1) as nat);
        law_number_bytes(n / 256, (count - 1) as nat, Seq::empty());
        assert(bytes_of(n, count).drop_last() =~= rest);
        assert(n == (n / 256) * 256 + n % 256);
    }
    if bytes.len() > 0 {
        let rest = bytes.drop_last();
        law_number_bytes(0, 0, rest);
        let number = number_of(bytes);
        let last = bytes.last();
        assert(number == number_of(rest) * 256 + last);
        assert(number / 256 == number_of(rest) && number % 256 == last);
        assert(bytes_of(number, bytes.len()) =~= rest.push(last));
        assert(bytes =~= rest.push(last));
    } else {
        assert(bytes_of(number_of(bytes), 0) =~= bytes);
    }
}

/// Append `n` in `count` bytes.
pub fn push_number(out: &mut Vec<u8>, n: u64, count: usize)
    ensures
        final(out)@ == old(out)@ + bytes_of(n as nat, count as nat),
    decreases count,
{
    if count > 0 {
        push_number(out, n / 256, count - 1);
        out.push((n % 256) as u8);
    }
    proof {
        assert(out@ =~= old(out)@ + bytes_of(n as nat, count as nat));
    }
}

/// The number that the bytes from `from` up to `to` write.
pub fn read_number(bytes: &Vec<u8>, from: usize, to: usize) -> (r: u64)
    requires
        from <= to <= bytes@.len(),
        to - from <= 4,
    ensures
        r == number_of(bytes@.subrange(from as int, to as int)),
        r < 0x1_0000_0000,
    decreases to - from,
{
    proof {
        reveal_with_fuel(reach, 5);
        law_number_bytes(0, 0, bytes@.subrange(from as int, to as int));
    }
    if from == to {
        return 0;
    }
    let rest = read_number(bytes, from, to - 1);
    proof {
        let whole = bytes@.subrange(from as int, to as int);
        assert(whole.drop_last() =~= bytes@.subrange(from as int, to - 1));
        law_number_bytes(0, 0, bytes@.subrange(from as int, to - 1));
        assert(rest < 0x100_0000);
    }
    rest * 256 + bytes[to - 1] as u64
}

} // verus!
