//! How a source is cut into chunks: reads of at most `capacity` bytes, one
//! chunk per read, until a read comes back short or the chunk-count ceiling
//! is reached.

use vstd::prelude::*;

verus! {

/// The read of chunk `index`, which gave `bytes_read` bytes, is the last one:
/// it came back short, or the ceiling allows no further chunk.
pub open spec fn final_read(capacity: nat, ceiling: nat, index: nat, bytes_read: nat) -> bool {
    bytes_read < capacity || index + 1 >= ceiling
}

/// The bytes one read of at most `capacity` bytes takes from `s`.
pub open spec fn read_len(s: Seq<u8>, capacity: nat) -> nat {
    if s.len() < capacity {
        s.len()
    } else {
        capacity
    }
}

/// The chunks written from chunk `index` on, for the rest `s` of the source,
/// where each read fills the buffer as far as the source allows.
pub open spec fn split_from(s: Seq<u8>, capacity: nat, ceiling: nat, index: nat) -> Seq<Seq<u8>>
    decreases ceiling - index,
{
    if index >= ceiling {
        Seq::empty()
    } else {
        let n = read_len(s, capacity);
        let chunk = s.take(n as int);
        if final_read(capacity, ceiling, index, n) {
            seq![chunk]
        } else {
            seq![chunk] + split_from(s.skip(n as int), capacity, ceiling, index + 1)
        }
    }
}

/// The chunks written for source `s`, in index order.
pub open spec fn split_source(s: Seq<u8>, capacity: nat, ceiling: nat) -> Seq<Seq<u8>> {
    split_from(s, capacity, ceiling, 0)
}

/// The smaller of two numbers.
pub open spec fn min_nat(a: nat, b: nat) -> nat {
    if a < b {
        a
    } else {
        b
    }
}

proof fn lemma_split_from(s: Seq<u8>, capacity: nat, ceiling: nat, index: nat)
    requires
        capacity > 0,
        index < ceiling,
    ensures
        split_from(s, capacity, ceiling, index).flatten() == s.take(
            min_nat(s.len(), capacity * (ceiling - index) as nat) as int,
        ),
        split_from(s, capacity, ceiling, index).len() == min_nat(
            s.len() / capacity + 1,
            (ceiling - index) as nat,
        ),
    decreases ceiling - index,
{
    let n = read_len(s, capacity);
    let chunk = s.take(n as int);
    let rest = (ceiling - index) as nat;
    assert(capacity <= capacity * rest) by (nonlinear_arith)
        requires
            rest >= 1,
    ;
    let parts = split_from(s, capacity, ceiling, index);
    if final_read(capacity, ceiling, index, n) {
        assert(parts =~= seq![chunk]);
        assert(seq![chunk].drop_first() =~= Seq::<Seq<u8>>::empty());
        assert(Seq::<Seq<u8>>::empty().flatten() =~= Seq::<u8>::empty());
        assert(parts.flatten() == chunk + Seq::<u8>::empty());
        assert(parts.flatten() =~= chunk);
        if n < capacity {
            assert(s.len() / capacity == 0) by (nonlinear_arith)
                requires
                    s.len() < capacity,
            ;
        } else {
            assert(s.len() / capacity >= 1) by (nonlinear_arith)
                requires
                    s.len() >= capacity,
                    capacity > 0,
            ;
            assert(rest == 1);
            assert(capacity * rest == capacity) by (nonlinear_arith)
                requires
                    rest == 1,
            ;
        }
    } else {
        let t = s.skip(n as int);
        let more = split_from(t, capacity, ceiling, index + 1);
        lemma_split_from(t, capacity, ceiling, index + 1);
        assert(parts =~= seq![chunk] + more);
        assert((seq![chunk] + more).drop_first() =~= more);
        assert(n == capacity);
        assert(t.len() == s.len() - capacity);
        assert(parts.flatten() == chunk + more.flatten());
        assert(capacity * rest == capacity + capacity * (rest - 1)) by (nonlinear_arith)
            requires
                rest >= 1,
        ;
        assert(t.len() / capacity + 1 == s.len() / capacity) by (nonlinear_arith)
            requires
                t.len() == s.len() - capacity,
                s.len() >= capacity,
                capacity > 0,
        ;
        let m = min_nat(t.len(), capacity * (rest - 1) as nat);
        assert(chunk + t.take(m as int) =~= s.take(
            min_nat(s.len(), capacity * rest) as int,
        ));
    }
}

/// The chunks, in index order, hold the source's bytes: all of them where the
/// source fits in `capacity * ceiling` bytes, and otherwise exactly its first
/// `capacity * ceiling` bytes.
pub proof fn lemma_split_complete(s: Seq<u8>, capacity: nat, ceiling: nat)
    requires
        capacity > 0,
        ceiling > 0,
    ensures
        split_source(s, capacity, ceiling).flatten() == s.take(
            min_nat(s.len(), capacity * ceiling) as int,
        ),
        s.len() <= capacity * ceiling ==> split_source(s, capacity, ceiling).flatten() == s,
{
    lemma_split_from(s, capacity, ceiling, 0);
    if s.len() <= capacity * ceiling {
        assert(s.take(s.len() as int) =~= s);
    }
}

/// A source of `S` bytes gives `S / capacity + 1` chunks, but never more than
/// `ceiling`: exactly `ceil(S / capacity)` chunks where `S` is not a multiple of
/// the capacity and fits under the ceiling, and exactly `ceiling` chunks where
/// the source fills all of them.
pub proof fn lemma_chunk_count(s: Seq<u8>, capacity: nat, ceiling: nat)
    requires
        capacity > 0,
        ceiling > 0,
    ensures
        split_source(s, capacity, ceiling).len() == min_nat(s.len() / capacity + 1, ceiling),
        s.len() % capacity != 0 && s.len() <= capacity * ceiling ==> split_source(
            s,
            capacity,
            ceiling,
        ).len() == (s.len() + capacity - 1) / (capacity as int),
        s.len() >= capacity * ceiling ==> split_source(s, capacity, ceiling).len() == ceiling,
{
    lemma_split_from(s, capacity, ceiling, 0);
    let len = s.len();
    if len % capacity != 0 {
        assert((len + capacity - 1) / (capacity as int) == len / capacity + 1) by (nonlinear_arith)
            requires
                len % capacity != 0,
                capacity > 0,
        ;
        if len <= capacity * ceiling {
            assert(len / capacity < ceiling) by (nonlinear_arith)
                requires
                    len <= capacity * ceiling,
                    len % capacity != 0,
                    capacity > 0,
            ;
        }
    }
    if len >= capacity * ceiling {
        assert(len / capacity >= ceiling) by (nonlinear_arith)
            requires
                len >= capacity * ceiling,
                capacity > 0,
        ;
    }
}

} // verus!
