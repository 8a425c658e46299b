//! First-stage run-length coding.
//!
//! Runs of identical bytes are scanned left to right. A run is closed when
//! the next byte differs or when it reaches 255 bytes of raw length. A
//! closed run of length at most 3 is emitted literally; a longer run is
//! emitted as exactly 4 literal bytes followed by one length byte holding
//! `run length - 4`. Decoding reverses this and rejects exactly one
//! malformed shape: 4 identical bytes at the end of the input with no
//! length byte after them.
use vstd::prelude::*;

verus! {

/// The error a run-length decode can report.
#[derive(Debug)]
pub enum Error {
    /// The input ends in 4 identical bytes with no length byte after them.
    RunLengthTruncated,
}

/// Length of the maximal prefix of equal bytes of `s`.
pub open spec fn front_run(s: Seq<u8>) -> nat
    decreases s.len(),
{
    if s.len() == 0 {
        0
    } else if s.len() == 1 || s[1] != s[0] {
        1
    } else {
        (1 + front_run(s.skip(1))) as nat
    }
}

/// The encoding of one closed run: `r` copies of `b`, where `r <= 255`.
pub open spec fn unit_enc(b: u8, r: nat) -> Seq<u8> {
    if r <= 3 {
        Seq::new(r, |i: int| b)
    } else {
        Seq::new(4, |i: int| b).push((r - 4) as u8)
    }
}

/// How many bytes the next closed run takes: the front run capped at 255.
/// The inner clamps to `1..=len` are vacuous (`lemma_front_run_bounds`);
/// they keep the definition well-founded on their own.
pub open spec fn run_take(s: Seq<u8>) -> nat {
    let fr = front_run(s);
    let cap: nat = if fr <= 255 {
        fr
    } else {
        255
    };
    let bounded: nat = if cap >= s.len() {
        s.len()
    } else {
        cap
    };
    if bounded >= 1 {
        bounded
    } else {
        1
    }
}

/// What encoding means: peel the front run (capped at 255 bytes), emit its
/// unit, and continue.
pub open spec fn encode_spec(s: Seq<u8>) -> Seq<u8>
    decreases s.len(),
{
    if s.len() == 0 {
        Seq::empty()
    } else {
        let r = run_take(s);
        unit_enc(s[0], r) + encode_spec(s.skip(r as int))
    }
}

/// Length of the leading run unit of a nonempty encoded buffer, or -1 when
/// the buffer is exactly 4 identical bytes (a truncated run marker).
pub open spec fn unit_len(s: Seq<u8>) -> int {
    if s.len() >= 2 && s[1] != s[0] {
        1
    } else if s.len() >= 3 && s[2] != s[0] {
        2
    } else if s.len() >= 4 && s[3] != s[0] {
        3
    } else if s.len() <= 3 {
        s.len() as int
    } else if s.len() == 4 {
        -1
    } else {
        5
    }
}

/// What one run unit decodes to: literal bytes, or `length byte + 4` copies
/// of the run byte.
pub open spec fn unit_dec(u: Seq<u8>) -> Seq<u8> {
    if u.len() < 4 {
        u
    } else {
        Seq::new(u[4] as nat + 4, |i: int| u[0])
    }
}

/// What decoding means: peel one run unit at a time; `None` is the
/// truncated-run failure.
pub open spec fn decode_spec(s: Seq<u8>) -> Option<Seq<u8>>
    decreases s.len(),
{
    if s.len() == 0 {
        Some(Seq::empty())
    } else {
        let u = unit_len(s);
        if u == -1 {
            None
        } else {
            match decode_spec(s.skip(u)) {
                None => None,
                Some(rest) => Some(unit_dec(s.take(u)) + rest),
            }
        }
    }
}

/// The maximal prefix of equal bytes is between 1 and the length of a
/// nonempty buffer, its bytes all equal the first, and it is maximal.
pub proof fn lemma_front_run_bounds(s: Seq<u8>)
    requires
        s.len() > 0,
    ensures
        1 <= front_run(s) <= s.len(),
        forall|k: int| 0 <= k < front_run(s) ==> #[trigger] s[k] == s[0],
        front_run(s) < s.len() ==> s[front_run(s) as int] != s[0],
    decreases s.len(),
{
    if s.len() == 1 || s[1] != s[0] {
    } else {
        lemma_front_run_bounds(s.skip(1));
        assert forall|k: int| 0 <= k < front_run(s) implies #[trigger] s[k] == s[0] by {
            if k >= 1 {
                assert(s.skip(1)[k - 1] == s[k]);
                assert(s.skip(1)[0] == s[1]);
            }
        }
        if front_run(s) < s.len() {
            assert(s.skip(1)[front_run(s) - 1] == s[front_run(s) as int]);
        }
    }
}

/// A prefix of `r` equal bytes that either ends the buffer or is followed by
/// a different byte is exactly the front run.
pub proof fn lemma_front_run_exact(s: Seq<u8>, r: int)
    requires
        1 <= r <= s.len(),
        forall|k: int| 0 <= k < r ==> #[trigger] s[k] == s[0],
        r == s.len() || s[r] != s[0],
    ensures
        front_run(s) == r,
    decreases s.len(),
{
    if s.len() == 1 || s[1] != s[0] {
        if r > 1 {
            assert(s[1] == s[0]);
        }
    } else {
        if r == 1 {
            assert(false);
        } else {
            assert forall|k: int| 0 <= k < r - 1 implies #[trigger] s.skip(1)[k] == s.skip(1)[0] by {
                assert(s.skip(1)[k] == s[k + 1]);
                assert(s.skip(1)[0] == s[1]);
            }
            if r - 1 < s.skip(1).len() {
                assert(s.skip(1)[r - 1] == s[r]);
            }
            lemma_front_run_exact(s.skip(1), r - 1);
        }
    }
}

/// A prefix of `r` equal bytes means the front run is at least `r`.
pub proof fn lemma_front_run_at_least(s: Seq<u8>, r: int)
    requires
        1 <= r <= s.len(),
        forall|k: int| 0 <= k < r ==> #[trigger] s[k] == s[0],
    ensures
        front_run(s) >= r,
    decreases s.len(),
{
    if r > 1 {
        assert(s[1] == s[0]);
        assert forall|k: int| 0 <= k < r - 1 implies #[trigger] s.skip(1)[k] == s.skip(1)[0] by {
            assert(s.skip(1)[k] == s[k + 1]);
            assert(s.skip(1)[0] == s[1]);
        }
        lemma_front_run_at_least(s.skip(1), r - 1);
    }
}

/// Emit one closed run: the bytes of `run` are all equal and there are at
/// most 255 of them. Runs of up to 3 bytes are copied; longer ones become
/// 4 literal bytes and a length byte.
pub fn encode_run(run: &Vec<u8>, output: &mut Vec<u8>)
    requires
        1 <= run@.len() <= 255,
        forall|k: int| 0 <= k < run@.len() ==> #[trigger] run@[k] == run@[0],
    ensures
        final(output)@ == old(output)@ + unit_enc(run@[0], run@.len()),
{
    if run.len() <= 3 {
        let mut k: usize = 0;
        while k < run.len()
            invariant
                k <= run.len(),
                run@.len() <= 3,
                forall|j: int| 0 <= j < run@.len() ==> #[trigger] run@[j] == run@[0],
                output@ == old(output)@ + Seq::new(k as nat, |i: int| run@[0]),
            decreases run.len() - k,
        {
            let b = run[k];
            output.push(b);
            assert(output@ =~= old(output)@ + Seq::new((k + 1) as nat, |i: int| run@[0]));
            k += 1;
        }
        assert(output@ =~= old(output)@ + unit_enc(run@[0], run@.len()));
    } else {
        let b = run[0];
        output.push(b);
        output.push(b);
        output.push(b);
        output.push(b);
        output.push((run.len() - 4) as u8);
        assert(output@ =~= old(output)@ + unit_enc(run@[0], run@.len()));
    }
}

/// Append what one run unit stands for: a short unit is literal, a 5-byte
/// unit is `length byte + 4` copies of its first byte.
pub fn decode_run(run: &Vec<u8>, output: &mut Vec<u8>)
    requires
        run@.len() == 1 || run@.len() == 2 || run@.len() == 3 || run@.len() == 5,
    ensures
        final(output)@ == old(output)@ + unit_dec(run@),
{
    if run.len() < 4 {
        let mut k: usize = 0;
        while k < run.len()
            invariant
                k <= run.len(),
                output@ == old(output)@ + run@.take(k as int),
            decreases run.len() - k,
        {
            let b = run[k];
            output.push(b);
            assert(output@ =~= old(output)@ + run@.take(k + 1));
            k += 1;
        }
        assert(run@.take(run@.len() as int) =~= run@);
    } else {
        let total: usize = run[4] as usize + 4;
        let b = run[0];
        let mut k: usize = 0;
        while k < total
            invariant
                k <= total,
                total == run@[4] as int + 4,
                b == run@[0],
                output@ == old(output)@ + Seq::new(k as nat, |i: int| run@[0]),
            decreases total - k,
        {
            output.push(b);
            assert(output@ =~= old(output)@ + Seq::new((k + 1) as nat, |i: int| run@[0]));
            k += 1;
        }
        assert(Seq::new(total as nat, |i: int| run@[0]) =~= unit_dec(run@));
    }
}

/// Measure the run unit that starts at `start`: 1 to 3 literal bytes, or a
/// 5-byte encoded run, or the truncation error when exactly 4 identical
/// bytes end the input.
pub fn get_run(data: &Vec<u8>, start: usize) -> (r: Result<usize, Error>)
    requires
        start < data@.len(),
    ensures
        match r {
            Ok(u) => {
                &&& u as int == unit_len(data@.skip(start as int))
                &&& (u == 1 || u == 2 || u == 3 || u == 5)
                &&& start + u <= data@.len()
            },
            Err(e) => {
                &&& unit_len(data@.skip(start as int)) == -1
                &&& e matches Error::RunLengthTruncated
            },
        },
{
    let ghost suf = data@.skip(start as int);
    let n = data.len();
    let rem = n - start;
    let b = data[start];
    assert(suf[0] == b);
    if rem >= 2 && data[start + 1] != b {
        assert(suf[1] == data@[start as int + 1]);
        Ok(1)
    } else if rem >= 3 && data[start + 2] != b {
        assert(suf[1] == data@[start as int + 1]);
        assert(suf[2] == data@[start as int + 2]);
        Ok(2)
    } else if rem >= 4 && data[start + 3] != b {
        assert(suf[1] == data@[start as int + 1]);
        assert(suf[2] == data@[start as int + 2]);
        assert(suf[3] == data@[start as int + 3]);
        Ok(3)
    } else if rem <= 3 {
        assert(forall|k: int| 1 <= k < rem ==> suf[k] == data@[start + k]);
        Ok(rem)
    } else if rem == 4 {
        assert(forall|k: int| 1 <= k < 4 ==> suf[k] == data@[start + k]);
        Err(Error::RunLengthTruncated)
    } else {
        assert(forall|k: int| 1 <= k < 4 ==> suf[k] == data@[start + k]);
        Ok(5)
    }
}

/// Run-length encode a whole buffer.
pub fn encode(data: &Vec<u8>) -> (r: Vec<u8>)
    ensures
        r@ == encode_spec(data@),
{
    let mut output: Vec<u8> = Vec::new();
    let mut i: usize = 0;
    proof {
        assert(data@.skip(0) =~= data@);
        assert(output@ + encode_spec(data@) =~= encode_spec(data@));
    }
    while i < data.len()
        invariant
            i <= data.len(),
            encode_spec(data@) == output@ + encode_spec(data@.skip(i as int)),
        decreases data.len() - i,
    {
        let b = data[i];
        let mut j: usize = i + 1;
        while j < data.len() && j - i < 255 && data[j] == b
            invariant
                i < j <= data.len(),
                j - i <= 255,
                b == data@[i as int],
                forall|k: int| i <= k < j ==> #[trigger] data@[k] == b,
            decreases data.len() - j,
        {
            j += 1;
        }
        let mut run: Vec<u8> = Vec::new();
        let mut k: usize = i;
        while k < j
            invariant
                i <= k <= j <= data.len(),
                b == data@[i as int],
                forall|t: int| i <= t < j ==> #[trigger] data@[t] == b,
                run@ =~= Seq::new((k - i) as nat, |t: int| b),
            decreases j - k,
        {
            run.push(data[k]);
            assert(run@ =~= Seq::new((k + 1 - i) as nat, |t: int| b));
            k += 1;
        }
        proof {
            let suf = data@.skip(i as int);
            assert(forall|t: int| 0 <= t < suf.len() ==> #[trigger] suf[t] == data@[i + t]);
            assert(forall|t: int| 0 <= t < j - i ==> #[trigger] suf[t] == suf[0]);
            if j - i < 255 {
                // the inner loop stopped at the end or at a differing byte
                lemma_front_run_exact(suf, j - i);
            } else {
                lemma_front_run_at_least(suf, 255);
            }
            assert(run_take(suf) == (j - i) as nat);
            assert(suf.skip((j - i) as int) =~= data@.skip(j as int));
            assert(encode_spec(suf) == unit_enc(b, (j - i) as nat) + encode_spec(
                data@.skip(j as int),
            ));
        }
        let ghost out_before = output@;
        encode_run(&run, &mut output);
        proof {
            assert(output@ == out_before + unit_enc(b, (j - i) as nat));
            assert(out_before + (unit_enc(b, (j - i) as nat) + encode_spec(data@.skip(j as int)))
                =~= output@ + encode_spec(data@.skip(j as int)));
        }
        assert(encode_spec(data@) == output@ + encode_spec(data@.skip(j as int)));
        i = j;
    }
    assert(data@.skip(data@.len() as int) =~= Seq::<u8>::empty());
    assert(output@ =~= encode_spec(data@));
    output
}

/// Run-length decode a whole buffer. Fails exactly when some run unit is a
/// truncated run marker: 4 identical bytes at the end of the input.
pub fn decode(data: &Vec<u8>) -> (r: Result<Vec<u8>, Error>)
    ensures
        match r {
            Ok(v) => decode_spec(data@) == Some(v@),
            Err(e) => {
                &&& decode_spec(data@) is None
                &&& e matches Error::RunLengthTruncated
            },
        },
{
    let mut output: Vec<u8> = Vec::new();
    let mut i: usize = 0;
    proof {
        assert(data@.skip(0) =~= data@);
    }
    while i < data.len()
        invariant
            i <= data.len(),
            decode_spec(data@) == match decode_spec(data@.skip(i as int)) {
                None => None::<Seq<u8>>,
                Some(rest) => Some(output@ + rest),
            },
        decreases data.len() - i,
    {
        let ghost suf = data@.skip(i as int);
        let u = match get_run(data, i) {
            Ok(u) => u,
            Err(e) => {
                return Err(e);
            },
        };
        let mut run: Vec<u8> = Vec::new();
        let mut k: usize = i;
        while k < i + u
            invariant
                i <= k <= i + u <= data.len(),
                run@ =~= data@.subrange(i as int, k as int),
            decreases i + u - k,
        {
            run.push(data[k]);
            assert(run@ =~= data@.subrange(i as int, k + 1));
            k += 1;
        }
        proof {
            assert(run@ =~= suf.take(u as int));
            assert(suf.skip(u as int) =~= data@.skip(i + u));
        }
        let ghost out_before = output@;
        decode_run(&run, &mut output);
        proof {
            assert(output@ == out_before + unit_dec(suf.take(u as int)));
            if decode_spec(data@.skip(i + u)) is Some {
                let rest = decode_spec(data@.skip(i + u)).unwrap();
                assert(out_before + (unit_dec(suf.take(u as int)) + rest) =~= output@ + rest);
            }
        }
        i += u;
    }
    proof {
        assert(data@.skip(data@.len() as int) =~= Seq::<u8>::empty());
        assert(output@ + Seq::<u8>::empty() =~= output@);
    }
    Ok(output)
}

/// The encoding of a nonempty buffer is nonempty and starts with the
/// buffer's first byte.
proof fn lemma_encode_first(s: Seq<u8>)
    requires
        s.len() > 0,
    ensures
        encode_spec(s).len() >= 1,
        encode_spec(s)[0] == s[0],
{
    lemma_front_run_bounds(s);
    let r = run_take(s);
    assert(unit_enc(s[0], r).len() >= 1);
    assert(unit_enc(s[0], r)[0] == s[0]);
    assert(encode_spec(s)[0] == unit_enc(s[0], r)[0]);
}

/// Round trip: decoding an encoded buffer gives the buffer back, for every
/// buffer.
pub proof fn lemma_round_trip(x: Seq<u8>)
    ensures
        decode_spec(encode_spec(x)) == Some(x),
    decreases x.len(),
{
    if x.len() == 0 {
        assert(encode_spec(x) =~= Seq::<u8>::empty());
        assert(x =~= Seq::<u8>::empty());
    } else {
        lemma_front_run_bounds(x);
        let b = x[0];
        let fr = front_run(x);
        let r = run_take(x) as int;
        assert(r == if fr <= 255 { fr as int } else { 255 });
        let u = unit_enc(b, r as nat);
        let rest = encode_spec(x.skip(r));
        let e = encode_spec(x);
        assert(e == u + rest);
        lemma_round_trip(x.skip(r));
        assert(forall|k: int| 0 <= k < r ==> #[trigger] x[k] == b);
        if r <= 3 {
            assert(fr == r);
            assert(u =~= Seq::new(r as nat, |i: int| b));
            assert(forall|k: int| 0 <= k < r ==> #[trigger] e[k] == b);
            if x.len() == r {
                assert(x.skip(r) =~= Seq::<u8>::empty());
                assert(rest =~= Seq::<u8>::empty());
                assert(e =~= u);
                assert(e.len() == r);
                assert(unit_len(e) == r);
                assert(e.skip(r) =~= Seq::<u8>::empty());
                assert(decode_spec(e) == Some(unit_dec(e.take(r)) + Seq::<u8>::empty()));
                assert(e.take(r) =~= u);
                assert(unit_dec(u) + Seq::<u8>::empty() =~= u);
                assert(u =~= x);
            } else {
                assert(x[r] != b);
                lemma_encode_first(x.skip(r));
                assert(rest[0] == x.skip(r)[0]);
                assert(x.skip(r)[0] == x[r]);
                assert(e[r] == rest[0]);
                assert(e[r] != e[0]);
                assert(unit_len(e) == r);
                assert(e.take(r) =~= u);
                assert(e.skip(r) =~= rest);
                assert(decode_spec(e) == Some(unit_dec(e.take(r)) + x.skip(r)));
                assert(unit_dec(u) == u);
                assert(u =~= x.take(r));
                assert(x.take(r) + x.skip(r) =~= x);
            }
        } else {
            assert(u =~= Seq::new(4, |i: int| b).push((r - 4) as u8));
            assert(u.len() == 5);
            assert(e.len() >= 5);
            assert(e[0] == b && e[1] == b && e[2] == b && e[3] == b);
            assert(unit_len(e) == 5);
            assert(e.take(5) =~= u);
            assert(e.skip(5) =~= rest);
            assert(decode_spec(e) == Some(unit_dec(e.take(5)) + x.skip(r)));
            assert(u[4] == (r - 4) as u8);
            assert(u[4] as int == r - 4);
            assert(unit_dec(u) =~= Seq::new(r as nat, |i: int| b));
            assert(unit_dec(u) =~= x.take(r));
            assert(x.take(r) + x.skip(r) =~= x);
        }
    }
}

/// Boundary sizes: a run of exactly 4 identical bytes encodes to 5 bytes
/// (4 literals and a zero length byte), and a run of exactly 3 encodes to
/// its 3 literal bytes unchanged.
pub proof fn lemma_boundary_runs(x: Seq<u8>)
    requires
        x.len() == 3 || x.len() == 4,
        forall|k: int| 0 <= k < x.len() ==> #[trigger] x[k] == x[0],
    ensures
        x.len() == 3 ==> encode_spec(x) == x,
        x.len() == 4 ==> encode_spec(x) =~= Seq::new(4, |i: int| x[0]).push(0u8),
{
    lemma_front_run_bounds(x);
    lemma_front_run_at_least(x, x.len() as int);
    assert(front_run(x) == x.len());
    let r = run_take(x);
    assert(r == x.len());
    assert(x.skip(x.len() as int) =~= Seq::<u8>::empty());
    assert(encode_spec(Seq::<u8>::empty()) =~= Seq::<u8>::empty());
    assert(encode_spec(x) == unit_enc(x[0], r) + encode_spec(x.skip(x.len() as int)));
    assert(unit_enc(x[0], r) + Seq::<u8>::empty() =~= unit_enc(x[0], r));
    if x.len() == 3 {
        assert(unit_enc(x[0], 3) =~= x);
    } else {
        assert(unit_enc(x[0], 4) =~= Seq::new(4, |i: int| x[0]).push(0u8));
    }
}

} // verus!
