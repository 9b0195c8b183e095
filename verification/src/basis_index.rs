//! Reading qubit bits out of computational-basis indices, qubit 0 being the
//! most significant bit.
use vstd::prelude::*;
use vstd::arithmetic::power2::{pow2, lemma_pow2_unfold, lemma_pow2_pos, lemma_pow2_strictly_increases, lemma2_to64};

verus! {

/// The bit of qubit `q` (qubit 0 the most significant) in the `n`-qubit
/// basis index `x`.
pub open spec fn bit_of(x: nat, q: int, n: int) -> nat {
    (x / pow2((n - 1 - q) as nat)) % 2
}

/// The bit of qubit `q` (qubit 0 the most significant) in the `n`-qubit
/// basis index `x`.
pub fn bit(x: usize, q: usize, n: usize) -> (b: usize)
    requires
        q < n,
        n - 1 - q < usize::BITS,
    ensures
        b == bit_of(x as nat, q as int, n as int),
{
    let s = n - 1 - q;
    proof {
        vstd::bits::lemma_usize_shr_is_div(x, s);
    }
    let y = x >> s;
    assert(y & 1 == y % 2) by (bit_vector);
    y & 1
}

/// The index formed by the bits of the qubits `qs` of `x`, the first
/// qubit giving the most significant bit.
pub open spec fn local_index_of(x: nat, qs: Seq<usize>, n: int) -> nat
    decreases qs.len(),
{
    if qs.len() == 0 { 0 } else { local_index_of(x, qs.drop_last(), n) * 2 + bit_of(x, qs.last() as int, n) }
}

proof fn lemma_local_index_bound(x: nat, qs: Seq<usize>, n: int)
    ensures
        local_index_of(x, qs, n) < pow2(qs.len()),
    decreases qs.len(),
{
    lemma_pow2_pos(qs.len());
    if qs.len() > 0 {
        lemma_local_index_bound(x, qs.drop_last(), n);
        lemma_pow2_unfold(qs.len());
    }
}

/// The index formed by the bits of `qubits` in the `n`-qubit basis index
/// `x`, the first qubit giving the most significant bit.
pub fn local_index(x: usize, qubits: &[usize], n: usize) -> (idx: usize)
    requires
        qubits@.len() <= 32,
        forall|i: int| 0 <= i < qubits@.len() ==> (#[trigger] qubits@[i]) < n && n - 1 - qubits@[i] < usize::BITS,
    ensures
        idx == local_index_of(x as nat, qubits@, n as int),
{
    let mut idx: usize = 0;
    let mut i: usize = 0;
    proof {
        assert(qubits@.take(0) =~= Seq::<usize>::empty());
        lemma2_to64();
    }
    while i < qubits.len()
        invariant
            i <= qubits@.len(),
            qubits@.len() <= 32,
            forall|k: int| 0 <= k < qubits@.len() ==> (#[trigger] qubits@[k]) < n && n - 1 - qubits@[k] < usize::BITS,
            idx == local_index_of(x as nat, qubits@.take(i as int), n as int),
            pow2(31) == 0x8000_0000,
        decreases qubits@.len() - i,
    {
        let b = bit(x, qubits[i], n);
        proof {
            lemma_local_index_bound(x as nat, qubits@.take(i as int), n as int);
            if i < 31 {
                lemma_pow2_strictly_increases(i as nat, 31);
            }
            assert(idx < 0x8000_0000);
            assert(qubits@.take(i + 1).drop_last() =~= qubits@.take(i as int));
            assert(qubits@.take(i + 1).last() == qubits@[i as int]);
        }
        assert(idx < 0x8000_0000 && b < 2 ==> (idx << 1) | b == idx * 2 + b) by (bit_vector);
        idx = (idx << 1) | b;
        i += 1;
    }
    proof {
        assert(qubits@.take(i as int) =~= qubits@);
    }
    idx
}

} // verus!
