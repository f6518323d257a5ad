//! The data of the instruction that asks the pool program to initialise a
//! pool: an instruction index, an amount and the pool address's bump seed.
use vstd::prelude::*;

verus! {

/// The instruction index of `initialize`.
pub const INITIALIZE_INDEX: u8 = 0;

/// The `len` lowest bytes of `n`, least significant first.
pub open spec fn le_bytes(n: nat, len: nat) -> Seq<u8>
    decreases len,
{
    if len == 0 {
        seq![]
    } else {
        seq![(n % 256) as u8] + le_bytes(n / 256, (len - 1) as nat)
    }
}

/// The index byte, the amount in eight little-endian bytes, and the bump.
pub open spec fn initialize_data(amount: u64, bump: u8) -> Seq<u8> {
    seq![INITIALIZE_INDEX] + le_bytes(amount as nat, 8) + seq![bump]
}

/// Serialises the data of an `initialize` instruction.
pub fn initialize_pool_data(amount: u64, bump: u8) -> (r: Vec<u8>)
    ensures
        r@ == initialize_data(amount, bump),
        r@.len() == 10,
{
    let mut data: Vec<u8> = Vec::new();
    data.push(INITIALIZE_INDEX);
    let mut rest: u64 = amount;
    let mut i: usize = 0;
    while i < 8
        invariant
            0 <= i <= 8,
            data@.len() == 1 + i,
            data@ + le_bytes(rest as nat, (8 - i) as nat) == seq![INITIALIZE_INDEX] + le_bytes(
                amount as nat,
                8,
            ),
        decreases 8 - i,
    {
        let byte = (rest % 256) as u8;
        proof {
            let tail = le_bytes((rest / 256) as nat, (8 - i - 1) as nat);
            assert(le_bytes(rest as nat, (8 - i) as nat) == seq![byte] + tail);
            assert(data@.push(byte) + tail =~= data@ + (seq![byte] + tail));
        }
        data.push(byte);
        rest = rest / 256;
        i = i + 1;
    }
    proof {
        assert(le_bytes(rest as nat, 0) =~= Seq::<u8>::empty());
        assert(data@ + Seq::<u8>::empty() =~= data@);
    }
    data.push(bump);
    proof {
        assert(le_bytes(amount as nat, 8).len() == 8) by {
            reveal_with_fuel(le_bytes, 9);
        }
    }
    data
}

} // verus!
