use vstd::prelude::*;

verus! {

broadcast use vstd::seq_lib::group_to_multiset_ensures;

/// A candidate returned by the proximity graph: an internal id and the bit
/// pattern of its (32-bit float) distance to the query.
pub type Candidate = (usize, u32);

/// Maps the bit pattern of a 32-bit float to an unsigned key whose order is
/// the order of the float values: negative values (sign bit set) have all
/// their bits inverted, the others get the sign bit set.
pub open spec fn order_key(bits: u32) -> u32 {
    if bits >= 0x8000_0000 {
        (0xFFFF_FFFFu32 - bits) as u32
    } else {
        (bits + 0x8000_0000u32) as u32
    }
}

/// `a` ranks at or before `b`: it is closer, or as close with an id no
/// larger.
pub open spec fn precedes(a: Candidate, b: Candidate) -> bool {
    order_key(a.1) < order_key(b.1) || (order_key(a.1) == order_key(b.1) && a.0 <= b.0)
}

/// Ascending distance, ties broken by ascending id.
pub open spec fn is_ranked(s: Seq<Candidate>) -> bool {
    forall|i: int, j: int| 0 <= i < j < s.len() ==> precedes(#[trigger] s[i], #[trigger] s[j])
}

/// The order key of a distance bit pattern.
pub fn distance_key(bits: u32) -> (r: u32)
    ensures
        r == order_key(bits),
{
    if bits >= 0x8000_0000 {
        0xFFFF_FFFFu32 - bits
    } else {
        bits + 0x8000_0000u32
    }
}

/// Executable form of [`precedes`].
pub fn ranks_before(a: Candidate, b: Candidate) -> (r: bool)
    ensures
        r == precedes(a, b),
{
    let ka = distance_key(a.1);
    let kb = distance_key(b.1);
    ka < kb || (ka == kb && a.0 <= b.0)
}

/// The candidates in ranked order: ascending distance, ties by ascending id.
pub fn sort_candidates(raw: &Vec<Candidate>) -> (r: Vec<Candidate>)
    ensures
        is_ranked(r@),
        r@.to_multiset() == raw@.to_multiset(),
{
    let mut out: Vec<Candidate> = Vec::new();
    let mut n: usize = 0;
    while n < raw.len()
        invariant
            n <= raw@.len(),
            out@.len() == n,
            is_ranked(out@),
            out@.to_multiset() == raw@.subrange(0, n as int).to_multiset(),
        decreases raw@.len() - n,
    {
        let x = raw[n];
        let mut p: usize = 0;
        while p < out.len() && ranks_before(out[p], x)
            invariant
                p <= out@.len(),
                forall|i: int| 0 <= i < p ==> precedes(#[trigger] out@[i], x),
            decreases out@.len() - p,
        {
            p += 1;
        }
        proof {
            assert forall|j: int| p <= j < out@.len() implies precedes(x, #[trigger] out@[j]) by {
                assert(!precedes(out@[p as int], x));
                if j > p {
                    assert(precedes(out@[p as int], out@[j]));
                }
            }
        }
        let ghost before = out@;
        out.insert(p, x);
        proof {
            assert(out@ == before.insert(p as int, x));
            assert forall|i: int, j: int| 0 <= i < j < out@.len() implies precedes(
                #[trigger] out@[i],
                #[trigger] out@[j],
            ) by {
                if j < p {
                    assert(precedes(before[i], before[j]));
                } else if j == p {
                } else if i < p {
                    assert(precedes(before[i], x));
                    assert(precedes(x, before[j - 1]));
                } else if i == p {
                } else {
                    assert(precedes(before[i - 1], before[j - 1]));
                }
            }
            assert(raw@.subrange(0, n + 1) == raw@.subrange(0, n as int).push(x));
        }
        n += 1;
    }
    assert(raw@.subrange(0, raw@.len() as int) == raw@);
    out
}

} // verus!
