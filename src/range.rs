use vstd::prelude::*;

verus! {

/// The block ranges `[start, end]` that cover `from..=to` in steps of
/// `chunk` blocks: each starts `chunk` after the one before, and ends
/// `chunk - 1` blocks after its start or at `to`, whichever is first.
pub open spec fn block_ranges(from: int, to: int, chunk: int) -> Seq<(int, int)>
    decreases (if from <= to { to - from + 1 } else { 0 }),
{
    if chunk > 0 && from <= to {
        let end = if from + chunk - 1 <= to { from + chunk - 1 } else { to };
        Seq::empty().push((from, end)) + block_ranges(from + chunk, to, chunk)
    } else {
        Seq::empty()
    }
}

/// A sequence of pairs of `u64`, as pairs of integers.
pub open spec fn ranges_view(s: Seq<(u64, u64)>) -> Seq<(int, int)> {
    s.map_values(|p: (u64, u64)| (p.0 as int, p.1 as int))
}

/// Splits the blocks `from..=to` into consecutive ranges of at most
/// `chunk` blocks; none where `from > to`.
pub fn get_block_range(from_block: u64, to_block: u64, chunk: u64) -> (r: Vec<(u64, u64)>)
    requires
        chunk > 0,
    ensures
        ranges_view(r@) == block_ranges(from_block as int, to_block as int, chunk as int),
{
    let mut out: Vec<(u64, u64)> = Vec::new();
    if from_block > to_block {
        assert(ranges_view(out@) =~= Seq::<(int, int)>::empty());
        return out;
    }
    let mut start: u64 = from_block;
    loop
        invariant
            chunk > 0,
            from_block <= start <= to_block,
            ranges_view(out@) + block_ranges(start as int, to_block as int, chunk as int)
                == block_ranges(from_block as int, to_block as int, chunk as int),
        decreases to_block - start,
    {
        let ghost before = out@;
        let last = to_block - start < chunk;
        let end: u64 = if to_block - start >= chunk - 1 {
            start + (chunk - 1)
        } else {
            to_block
        };
        out.push((start, end));
        let ghost rest = block_ranges(start as int + chunk as int, to_block as int, chunk as int);
        assert(block_ranges(start as int, to_block as int, chunk as int)
            == Seq::empty().push((start as int, end as int)) + rest);
        assert(ranges_view(out@) =~= ranges_view(before) + Seq::empty().push((start as int, end as int)));
        assert(ranges_view(out@) + rest =~= ranges_view(before) + (Seq::empty().push((start as int, end as int)) + rest));
        if last {
            assert(rest =~= Seq::<(int, int)>::empty());
            assert(ranges_view(out@) =~= ranges_view(out@) + rest);
            return out;
        }
        start = start + chunk;
    }
}

} // verus!
