//! Basis indices and their bits.
//!
//! A basis state of a register of `n` qubits is named by an index below `2^n`.
//! Qubit `q` is bit `q` of the index, counted from the least significant bit, both
//! where a single qubit is read and where a whole index is taken apart. A whole
//! decomposition lists the qubits from the most significant one down, the order in
//! which a ket is written.

use vstd::prelude::*;
use vstd::arithmetic::div_mod::{lemma_basic_div, lemma_div_denominator, lemma_fundamental_div_mod};
use vstd::arithmetic::power::lemma_pow0;
use vstd::arithmetic::power2::{
    lemma2_to64_rest, lemma_pow2_pos, lemma_pow2_strictly_increases, lemma_pow2_unfold, pow2,
};
use vstd::bits::lemma_u64_shr_is_div;

verus! {

/// The value of qubit `qubit` in the basis state `index`.
pub open spec fn bit_at(index: nat, qubit: nat) -> bool {
    (index / pow2(qubit)) % 2 == 1
}

/// The qubits of the basis state `index` in a register of `count` qubits, the most
/// significant first: position `j` holds qubit `count - 1 - j`.
pub open spec fn bits_of(index: nat, count: nat) -> Seq<bool> {
    Seq::new(count, |j: int| bit_at(index, (count - 1 - j) as nat))
}

/// The character that stands for a qubit value in a ket.
pub open spec fn bit_char(bit: bool) -> char {
    if bit {
        '1'
    } else {
        '0'
    }
}

/// The ket label of the basis state `index`: one character per qubit, the most
/// significant first.
pub open spec fn label_of(index: nat, count: nat) -> Seq<char> {
    Seq::new(count, |j: int| bit_char(bit_at(index, (count - 1 - j) as nat)))
}

/// Every qubit from position 64 on is clear in an index that fits in 64 bits.
proof fn lemma_high_bits_clear(index: nat, qubit: nat)
    requires
        index <= u64::MAX,
        qubit >= 64,
    ensures
        !bit_at(index, qubit),
{
    lemma2_to64_rest();
    if qubit > 64 {
        lemma_pow2_strictly_increases(64, qubit);
    }
    lemma_basic_div(index as int, pow2(qubit) as int);
}

/// The decomposition of an index and the reading of a single qubit agree on which
/// qubit is which: qubit `qubit` stands at position `count - 1 - qubit`.
pub proof fn lemma_decomposition_holds_each_qubit(index: nat, count: nat, qubit: nat)
    requires
        qubit < count,
    ensures
        bits_of(index, count)[count - 1 - qubit] == bit_at(index, qubit),
        label_of(index, count)[count - 1 - qubit] == bit_char(bit_at(index, qubit)),
{
}

/// Halving an index shifts its qubits down by one place.
proof fn lemma_bit_of_half(index: nat, qubit: nat)
    ensures
        bit_at(index / 2, qubit) == bit_at(index, qubit + 1),
{
    lemma_pow2_pos(qubit);
    lemma_pow2_unfold(qubit + 1);
    lemma_div_denominator(index as int, 2, pow2(qubit) as int);
}

/// The decomposition names the index: two indices below `2^count` with the same
/// qubits are the same index.
pub proof fn lemma_decomposition_is_injective(a: nat, b: nat, count: nat)
    requires
        a < pow2(count),
        b < pow2(count),
        bits_of(a, count) == bits_of(b, count),
    ensures
        a == b,
    decreases count,
{
    assert(pow2(0) == 1) by {
        reveal(pow2);
        lemma_pow0(2);
    }
    if count > 0 {
        let rest = (count - 1) as nat;
        lemma_pow2_unfold(count);
        let half_a = bits_of(a / 2, rest);
        let half_b = bits_of(b / 2, rest);
        assert(half_a =~= half_b) by {
            assert forall|j: int| 0 <= j < rest implies #[trigger] half_a[j] == half_b[j] by {
                let qubit = (rest - 1 - j) as nat;
                lemma_bit_of_half(a, qubit);
                lemma_bit_of_half(b, qubit);
                assert(bits_of(a, count)[j] == bit_at(a, qubit + 1));
                assert(bits_of(b, count)[j] == bit_at(b, qubit + 1));
            }
        }
        lemma_decomposition_is_injective(a / 2, b / 2, rest);
        assert(bit_at(a, 0) == bit_at(b, 0)) by {
            assert(bits_of(a, count)[count - 1] == bit_at(a, 0));
            assert(bits_of(b, count)[count - 1] == bit_at(b, 0));
        }
        lemma_fundamental_div_mod(a as int, 2);
        lemma_fundamental_div_mod(b as int, 2);
    }
}

/// The value of qubit `qubit_nr` in the basis state `state_nr`, such as `true` for
/// qubit 1 of index 2.
pub fn to_single_state_binary_val(state_nr: usize, qubit_nr: usize) -> (value: bool)
    ensures
        value == bit_at(state_nr as nat, qubit_nr as nat),
{
    if qubit_nr >= 64 {
        proof {
            lemma_high_bits_clear(state_nr as nat, qubit_nr as nat);
        }
        false
    } else {
        let wide: u64 = state_nr as u64;
        let shift: u64 = qubit_nr as u64;
        proof {
            lemma_u64_shr_is_div(wide, shift);
        }
        (wide >> shift) % 2 == 1
    }
}

/// The qubits of the basis state `state_nr` in a register of `subsys_cnt` qubits,
/// the most significant first, such as `[false, false, true, false]` for index 2
/// of four qubits.
pub fn to_state_nrs_binary(state_nr: usize, subsys_cnt: usize) -> (nrs: Vec<bool>)
    ensures
        nrs@ == bits_of(state_nr as nat, subsys_cnt as nat),
{
    let mut nrs: Vec<bool> = Vec::with_capacity(subsys_cnt);
    let mut done: usize = 0;
    while done < subsys_cnt
        invariant
            done <= subsys_cnt,
            nrs@.len() == done,
            forall|j: int|
                0 <= j < done ==> nrs@[j] == bit_at(state_nr as nat, (subsys_cnt - 1 - j) as nat),
        decreases subsys_cnt - done,
    {
        nrs.push(to_single_state_binary_val(state_nr, subsys_cnt - 1 - done));
        done = done + 1;
    }
    assert(nrs@ =~= bits_of(state_nr as nat, subsys_cnt as nat));
    nrs
}

/// The ket label of the basis state `state_nr` in a register of `subsys_cnt`
/// qubits, such as `0010` for index 2 of four qubits.
pub fn to_state_repr_binary(state_nr: usize, subsys_cnt: usize) -> (repr: String)
    ensures
        repr@ == label_of(state_nr as nat, subsys_cnt as nat),
{
    let nrs = to_state_nrs_binary(state_nr, subsys_cnt);
    let mut repr = String::new();
    let mut done: usize = 0;
    while done < subsys_cnt
        invariant
            done <= subsys_cnt,
            nrs@ == bits_of(state_nr as nat, subsys_cnt as nat),
            repr@.len() == done,
            forall|j: int| 0 <= j < done ==> repr@[j] == bit_char(nrs@[j]),
        decreases subsys_cnt - done,
    {
        proof {
            reveal_strlit("1");
            reveal_strlit("0");
        }
        if nrs[done] {
            repr.append("1");
        } else {
            repr.append("0");
        }
        done = done + 1;
    }
    assert(repr@ =~= label_of(state_nr as nat, subsys_cnt as nat));
    repr
}

} // verus!
