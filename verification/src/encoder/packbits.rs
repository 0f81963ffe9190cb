//! PackBits, a run-length encoding of bytes.
//!
//! Packed data is a sequence of packets. A packet with a header byte `n` below 128 holds `n + 1`
//! bytes as they are. One with a header byte `n` above 128 holds one byte, which stands for
//! `257 - n` of it. The header byte 128 stands for nothing.

use vstd::prelude::*;
use vstd::slice::slice_subrange;

verus! {

/// What packed data stands for, or `None` if it ends in the middle of a packet.
pub open spec fn unpacked(packed: Seq<u8>) -> Option<Seq<u8>>
    decreases packed.len(),
{
    if packed.len() == 0 {
        Some(Seq::empty())
    } else if packed[0] < 128 {
        let n = packed[0] as int + 1;
        if packed.len() < 1 + n {
            None
        } else {
            match unpacked(packed.skip(1 + n)) {
                Some(rest) => Some(packed.subrange(1, 1 + n) + rest),
                None => None,
            }
        }
    } else if packed[0] == 128 {
        unpacked(packed.skip(1))
    } else if packed.len() < 2 {
        None
    } else {
        match unpacked(packed.skip(2)) {
            Some(rest) => Some(Seq::new((257 - packed[0]) as nat, |i: int| packed[1]) + rest),
            None => None,
        }
    }
}

/// The most bytes that one packet can stand for.
pub const MAX_PACKET: usize = 128;

/// Where the run that starts `data`, of equal bytes at least up to `n`, ends.
pub open spec fn run_end(data: Seq<u8>, n: int) -> int
    decreases data.len() - n,
{
    if n < data.len() && n < MAX_PACKET && data[n] == data[0] {
        run_end(data, n + 1)
    } else {
        n
    }
}

/// Whether three equal bytes stand at `n`, all of them within reach of one packet.
pub open spec fn run_starts(data: Seq<u8>, n: int) -> bool {
    n + 3 <= data.len() && n + 3 <= MAX_PACKET && data[n] == data[n + 1] && data[n + 1] == data[n
        + 2]
}

/// Where the bytes at the start of `data` end that go into one packet as they are, at least `n`.
pub open spec fn literal_end(data: Seq<u8>, n: int) -> int
    decreases data.len() - n,
{
    if n < data.len() && n < MAX_PACKET && !run_starts(data, n) {
        literal_end(data, n + 1)
    } else {
        n
    }
}

/// The packets for `data`. A packet takes a run if `data` starts with one of at least two bytes,
/// and else all bytes before the next run of at least three bytes.
pub open spec fn packed(data: Seq<u8>) -> Seq<u8>
    decreases data.len(),
{
    if data.len() == 0 {
        Seq::empty()
    } else {
        let run = run_end(data, 1);
        let literal = literal_end(data, 1);
        proof {
            lemma_ends(data, 1);
        }
        if run >= 2 {
            seq![(257 - run) as u8, data[0]] + packed(data.skip(run))
        } else {
            seq![(literal - 1) as u8] + data.take(literal) + packed(data.skip(literal))
        }
    }
}

pub proof fn lemma_ends(data: Seq<u8>, n: int)
    requires
        1 <= n <= data.len(),
        n <= MAX_PACKET,
    ensures
        n <= run_end(data, n) <= data.len(),
        run_end(data, n) <= MAX_PACKET,
        forall|i: int| n <= i < run_end(data, n) ==> #[trigger] data[i] == data[0],
        n <= literal_end(data, n) <= data.len(),
        literal_end(data, n) <= MAX_PACKET,
    decreases data.len() - n,
{
    if n < data.len() && n < MAX_PACKET {
        lemma_ends(data, n + 1);
    }
}

/// Unpacking gives back what was packed.
pub proof fn lemma_unpacked_packed(data: Seq<u8>)
    ensures
        unpacked(packed(data)) == Some(data),
    decreases data.len(),
{
    if data.len() > 0 {
        let run = run_end(data, 1);
        let literal = literal_end(data, 1);
        lemma_ends(data, 1);
        let all = packed(data);
        if run >= 2 {
            let rest = packed(data.skip(run));
            lemma_unpacked_packed(data.skip(run));
            assert(all.skip(2) =~= rest);
            let same = Seq::new((257 - all[0]) as nat, |i: int| all[1]);
            assert(same + data.skip(run) =~= data);
        } else {
            let rest = packed(data.skip(literal));
            lemma_unpacked_packed(data.skip(literal));
            assert(all.skip(1 + literal) =~= rest);
            assert(all.subrange(1, 1 + literal) =~= data.take(literal));
            assert(data.take(literal) + data.skip(literal) =~= data);
        }
    } else {
        assert(data =~= Seq::empty());
    }
}

/// Packs `data`.
pub fn pack(data: &[u8]) -> (out: Vec<u8>)
    ensures
        out@ == packed(data@),
        unpacked(out@) == Some(data@),
{
    let mut out: Vec<u8> = Vec::new();
    let mut i: usize = 0;
    assert(data@.skip(0) =~= data@);
    assert(out@ + packed(data@) =~= packed(data@));
    while i < data.len()
        invariant
            i <= data@.len(),
            out@ + packed(data@.skip(i as int)) == packed(data@),
        decreases data@.len() - i,
    {
        let ghost rest = data@.skip(i as int);
        let ghost done = out@;
        let left: usize = data.len() - i;
        let mut run: usize = 1;
        while run < left && run < MAX_PACKET && data[i + run] == data[i]
            invariant
                i < data@.len(),
                left == data@.len() - i,
                data@.len() <= usize::MAX,
                rest == data@.skip(i as int),
                1 <= run <= left,
                run <= MAX_PACKET,
                run_end(rest, run as int) == run_end(rest, 1),
            decreases left - run,
        {
            run = run + 1;
        }
        assert(run == run_end(rest, 1));
        if run >= 2 {
            out.push((257 - run) as u8);
            out.push(data[i]);
            proof {
                let head = seq![(257 - run) as u8, data@[i as int]];
                assert(out@ =~= done + head);
                assert(rest.skip(run as int) =~= data@.skip(i + run));
                assert(done + (head + packed(rest.skip(run as int))) =~= out@ + packed(
                    rest.skip(run as int),
                ));
            }
            i = i + run;
        } else {
            let mut literal: usize = 1;
            while literal < left && literal < MAX_PACKET && !(left - literal >= 3 && literal + 3
                <= MAX_PACKET && data[i + literal] == data[i + literal + 1] && data[i + literal + 1]
                == data[i + literal + 2])
                invariant
                    i < data@.len(),
                    left == data@.len() - i,
                    data@.len() <= usize::MAX,
                    rest == data@.skip(i as int),
                    1 <= literal <= left,
                    literal <= MAX_PACKET,
                    literal_end(rest, literal as int) == literal_end(rest, 1),
                decreases left - literal,
            {
                literal = literal + 1;
            }
            assert(literal == literal_end(rest, 1));
            out.push((literal - 1) as u8);
            out.extend_from_slice(slice_subrange(data, i, i + literal));
            proof {
                let head = seq![(literal - 1) as u8] + rest.take(literal as int);
                assert(data@.subrange(i as int, i + literal) =~= rest.take(literal as int));
                assert(out@ =~= done + head);
                assert(rest.skip(literal as int) =~= data@.skip(i + literal));
                assert(done + (head + packed(rest.skip(literal as int))) =~= out@ + packed(
                    rest.skip(literal as int),
                ));
            }
            i = i + literal;
        }
    }
    proof {
        assert(data@.skip(i as int) =~= Seq::empty());
        assert(out@ =~= packed(data@));
        lemma_unpacked_packed(data@);
    }
    out
}

} // verus!
