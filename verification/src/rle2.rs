//! Second-stage run-length coding for runs of zero.
//!
//! Move-to-front output is rich in zero bytes. This stage replaces each
//! maximal run of zeros with a short word over the two run symbols, a
//! bijective base-2 numeral (digit values: `RunA` is 1, `RunB` is 2, each
//! weighted by increasing powers of two, least significant digit first).
//! A run of `L` zeros and its numeral `w` are related by
//! `L + 1 == (1 << w.len()) | bits(w)`, where `bits` reads `RunA` as 0 and
//! `RunB` as 1. Nonzero bytes pass through as literal symbols.
use vstd::prelude::*;

verus! {

/// The symbol alphabet this stage emits.
///
/// A decoder also accepts `Byte(0)` and treats it as a single literal zero
/// rather than a run marker; the encoder itself never emits it.
#[derive(Debug, PartialEq, Eq, Structural, Clone, Copy)]
pub enum Symbol {
    /// A run digit of value 1.
    RunA,
    /// A run digit of value 2.
    RunB,
    /// A literal byte, passed through unchanged.
    Byte(u8),
}

/// Whether a symbol is one of the two run digits.
pub open spec fn is_run_sym(s: Symbol) -> bool {
    s is RunA || s is RunB
}

/// The digit value of a run symbol.
pub open spec fn digit(s: Symbol) -> nat {
    match s {
        Symbol::RunA => 1,
        Symbol::RunB => 2,
        Symbol::Byte(_) => 0,
    }
}

/// The zero count a run word stands for: its bijective base-2 value, least
/// significant digit first.
pub open spec fn run_val(run: Seq<Symbol>) -> nat
    decreases run.len(),
{
    if run.len() == 0 {
        0
    } else {
        digit(run[0]) + 2 * run_val(run.skip(1))
    }
}

/// The bijective base-2 numeral of `length`, least significant digit first.
pub open spec fn run_enc(length: nat) -> Seq<Symbol>
    decreases length,
{
    if length == 0 {
        Seq::empty()
    } else if length % 2 == 1 {
        seq![Symbol::RunA] + run_enc((length - 1) as nat / 2)
    } else {
        seq![Symbol::RunB] + run_enc((length - 2) as nat / 2)
    }
}

/// Length of the maximal prefix of zero bytes.
pub open spec fn zeros_prefix(s: Seq<u8>) -> nat
    decreases s.len(),
{
    if s.len() == 0 || s[0] != 0 {
        0
    } else {
        (1 + zeros_prefix(s.skip(1))) as nat
    }
}

/// Length of the maximal prefix of run symbols.
pub open spec fn runsyms_prefix(s: Seq<Symbol>) -> nat
    decreases s.len(),
{
    if s.len() == 0 || !is_run_sym(s[0]) {
        0
    } else {
        (1 + runsyms_prefix(s.skip(1))) as nat
    }
}

/// The zero-run length encoding peels, clamped into `1..=len` only to keep
/// the definitions below well-founded; the clamps are vacuous when `s`
/// starts with a zero (`lemma_zeros_prefix_bounds`).
pub open spec fn zero_take(s: Seq<u8>) -> nat {
    let z = zeros_prefix(s);
    let bounded: nat = if z >= s.len() {
        s.len()
    } else {
        z
    };
    if bounded >= 1 {
        bounded
    } else {
        1
    }
}

/// The run-word length decoding peels, clamped as `zero_take` is.
pub open spec fn runsyms_take(s: Seq<Symbol>) -> nat {
    let m = runsyms_prefix(s);
    let bounded: nat = if m >= s.len() {
        s.len()
    } else {
        m
    };
    if bounded >= 1 {
        bounded
    } else {
        1
    }
}

/// What encoding means: nonzero bytes pass through, each maximal zero run
/// becomes its numeral.
pub open spec fn encode_spec(s: Seq<u8>) -> Seq<Symbol>
    decreases s.len(),
{
    if s.len() == 0 {
        Seq::empty()
    } else if s[0] != 0 {
        seq![Symbol::Byte(s[0])] + encode_spec(s.skip(1))
    } else {
        let z = zero_take(s);
        run_enc(z) + encode_spec(s.skip(z as int))
    }
}

/// What decoding means: a literal symbol gives its byte, each maximal run
/// word gives its value in zero bytes.
pub open spec fn decode_spec(s: Seq<Symbol>) -> Seq<u8>
    decreases s.len(),
{
    if s.len() == 0 {
        Seq::empty()
    } else if !is_run_sym(s[0]) {
        let b = s[0]->Byte_0;
        seq![b] + decode_spec(s.skip(1))
    } else {
        let m = runsyms_take(s);
        Seq::new(run_val(s.take(m as int)), |i: int| 0u8) + decode_spec(s.skip(m as int))
    }
}

/// The maximal zero prefix of a buffer that starts with a zero byte is
/// between 1 and the length, all zeros, and maximal.
pub proof fn lemma_zeros_prefix_bounds(s: Seq<u8>)
    requires
        s.len() > 0,
        s[0] == 0,
    ensures
        1 <= zeros_prefix(s) <= s.len(),
        forall|k: int| 0 <= k < zeros_prefix(s) ==> #[trigger] s[k] == 0,
        zeros_prefix(s) < s.len() ==> s[zeros_prefix(s) as int] != 0,
        zero_take(s) == zeros_prefix(s),
    decreases s.len(),
{
    if s.len() > 1 && s[1] == 0 {
        assert(s.skip(1)[0] == s[1]);
        lemma_zeros_prefix_bounds(s.skip(1));
        assert(zeros_prefix(s) == 1 + zeros_prefix(s.skip(1)));
        assert forall|k: int| 0 <= k < zeros_prefix(s) implies #[trigger] s[k] == 0 by {
            if k >= 1 {
                assert(s.skip(1)[k - 1] == s[k]);
            }
        }
        if zeros_prefix(s) < s.len() {
            assert(s.skip(1)[zeros_prefix(s) - 1] == s[zeros_prefix(s) as int]);
        }
    } else {
        if s.len() > 1 {
            assert(s.skip(1)[0] == s[1]);
            assert(zeros_prefix(s.skip(1)) == 0);
        } else {
            assert(s.skip(1).len() == 0);
            assert(zeros_prefix(s.skip(1)) == 0);
        }
        assert(zeros_prefix(s) == 1);
    }
}

/// The maximal run-symbol prefix of a symbol buffer that starts with a run
/// symbol is between 1 and the length, all run symbols, and maximal.
pub proof fn lemma_runsyms_prefix_bounds(s: Seq<Symbol>)
    requires
        s.len() > 0,
        is_run_sym(s[0]),
    ensures
        1 <= runsyms_prefix(s) <= s.len(),
        forall|k: int| 0 <= k < runsyms_prefix(s) ==> is_run_sym(#[trigger] s[k]),
        runsyms_prefix(s) < s.len() ==> !is_run_sym(s[runsyms_prefix(s) as int]),
        runsyms_take(s) == runsyms_prefix(s),
    decreases s.len(),
{
    if s.len() > 1 && is_run_sym(s[1]) {
        assert(s.skip(1)[0] == s[1]);
        lemma_runsyms_prefix_bounds(s.skip(1));
        assert(runsyms_prefix(s) == 1 + runsyms_prefix(s.skip(1)));
        assert forall|k: int| 0 <= k < runsyms_prefix(s) implies is_run_sym(#[trigger] s[k]) by {
            if k >= 1 {
                assert(s.skip(1)[k - 1] == s[k]);
            }
        }
        if runsyms_prefix(s) < s.len() {
            assert(s.skip(1)[runsyms_prefix(s) - 1] == s[runsyms_prefix(s) as int]);
        }
    } else {
        if s.len() > 1 {
            assert(s.skip(1)[0] == s[1]);
            assert(runsyms_prefix(s.skip(1)) == 0);
        } else {
            assert(s.skip(1).len() == 0);
            assert(runsyms_prefix(s.skip(1)) == 0);
        }
        assert(runsyms_prefix(s) == 1);
    }
}

/// A prefix of `m` run symbols followed by the end or a literal is exactly
/// the maximal run-symbol prefix.
proof fn lemma_runsyms_prefix_exact(s: Seq<Symbol>, m: int)
    requires
        1 <= m <= s.len(),
        forall|k: int| 0 <= k < m ==> is_run_sym(#[trigger] s[k]),
        m == s.len() || !is_run_sym(s[m]),
    ensures
        runsyms_prefix(s) == m,
    decreases s.len(),
{
    if m > 1 {
        assert(s.skip(1)[0] == s[1]);
        assert forall|k: int| 0 <= k < m - 1 implies is_run_sym(#[trigger] s.skip(1)[k]) by {
            assert(s.skip(1)[k] == s[k + 1]);
        }
        if m - 1 < s.skip(1).len() {
            assert(s.skip(1)[m - 1] == s[m]);
        }
        lemma_runsyms_prefix_exact(s.skip(1), m - 1);
        assert(runsyms_prefix(s) == 1 + runsyms_prefix(s.skip(1)));
    } else {
        if s.len() > 1 {
            assert(s.skip(1)[0] == s[1]);
            assert(runsyms_prefix(s.skip(1)) == 0);
        } else {
            assert(s.skip(1).len() == 0);
            assert(runsyms_prefix(s.skip(1)) == 0);
        }
        assert(runsyms_prefix(s) == 1);
    }
}

/// The numeral of a positive count is nonempty and made of run symbols.
pub proof fn lemma_run_enc_shape(length: nat)
    ensures
        length >= 1 ==> run_enc(length).len() >= 1,
        forall|k: int| 0 <= k < run_enc(length).len() ==> is_run_sym(#[trigger] run_enc(length)[k]),
    decreases length,
{
    if length == 0 {
    } else {
        let rest: nat = if length % 2 == 1 {
            (length - 1) as nat / 2
        } else {
            (length - 2) as nat / 2
        };
        lemma_run_enc_shape(rest);
        let d = if length % 2 == 1 {
            Symbol::RunA
        } else {
            Symbol::RunB
        };
        assert(run_enc(length) == seq![d] + run_enc(rest));
        assert forall|k: int| 0 <= k < run_enc(length).len() implies is_run_sym(
            #[trigger] run_enc(length)[k],
        ) by {
            if k == 0 {
                assert(run_enc(length)[0] == d);
            } else {
                assert(run_enc(length)[k] == run_enc(rest)[k - 1]);
            }
        }
    }
}

/// Numeral law: reading back the numeral of any count recovers the count.
/// This holds for every count; the run coder only ever uses it for counts
/// of at least 1.
pub proof fn lemma_run_numeral(length: nat)
    ensures
        run_val(run_enc(length)) == length,
    decreases length,
{
    if length == 0 {
    } else {
        let rest: nat = if length % 2 == 1 {
            (length - 1) as nat / 2
        } else {
            (length - 2) as nat / 2
        };
        lemma_run_numeral(rest);
        let d = if length % 2 == 1 {
            Symbol::RunA
        } else {
            Symbol::RunB
        };
        let w = seq![d] + run_enc(rest);
        assert(run_enc(length) == w);
        assert(w.skip(1) =~= run_enc(rest));
        assert(w[0] == d);
        assert(run_val(w) == digit(d) + 2 * run_val(run_enc(rest)));
    }
}

/// Encode one zero run as its numeral word.
pub fn encode_run(length: usize) -> (r: Vec<Symbol>)
    requires
        length >= 1,
    ensures
        r@ == run_enc(length as nat),
{
    let mut output: Vec<Symbol> = Vec::new();
    let mut l: usize = length;
    while l > 0
        invariant
            run_enc(length as nat) == output@ + run_enc(l as nat),
        decreases l,
    {
        let ghost before = output@;
        if l % 2 == 1 {
            output.push(Symbol::RunA);
            proof {
                assert(run_enc(l as nat) == seq![Symbol::RunA] + run_enc((l - 1) as nat / 2));
                assert(before + (seq![Symbol::RunA] + run_enc((l - 1) as nat / 2)) =~= output@
                    + run_enc((l - 1) as nat / 2));
            }
            l = (l - 1) / 2;
        } else {
            output.push(Symbol::RunB);
            proof {
                assert(run_enc(l as nat) == seq![Symbol::RunB] + run_enc((l - 2) as nat / 2));
                assert(before + (seq![Symbol::RunB] + run_enc((l - 2) as nat / 2)) =~= output@
                    + run_enc((l - 2) as nat / 2));
            }
            l = (l - 2) / 2;
        }
    }
    proof {
        assert(output@ + run_enc(0) =~= output@);
    }
    output
}

/// The value of a suffix of a run word never exceeds the value of the whole
/// word.
proof fn lemma_run_val_suffix(run: Seq<Symbol>, j: int)
    requires
        0 <= j <= run.len(),
    ensures
        run_val(run.skip(j)) <= run_val(run),
        j >= 1 ==> run_val(run.skip(j - 1)) == digit(run[j - 1]) + 2 * run_val(run.skip(j)),
    decreases j,
{
    if j >= 1 {
        assert(run.skip(j - 1).skip(1) =~= run.skip(j));
        assert(run.skip(j - 1)[0] == run[j - 1]);
        assert(run_val(run.skip(j - 1)) == digit(run[j - 1]) + 2 * run_val(run.skip(j)));
        lemma_run_val_suffix(run, j - 1);
        assert(run.skip(0) =~= run);
    } else {
        assert(run.skip(0) =~= run);
    }
}

/// Decode one run word back to its zeros.
pub fn decode_run(run: &Vec<Symbol>) -> (r: Vec<u8>)
    requires
        run@.len() >= 1,
        forall|k: int| 0 <= k < run@.len() ==> is_run_sym(#[trigger] run@[k]),
        run_val(run@) <= usize::MAX,
    ensures
        r@ == Seq::new(run_val(run@), |i: int| 0u8),
{
    let n = run.len();
    let mut val: usize = 0;
    let mut j: usize = n;
    proof {
        assert(run@.skip(n as int) =~= Seq::<Symbol>::empty());
    }
    while j > 0
        invariant
            0 <= j <= n,
            n == run@.len(),
            forall|k: int| 0 <= k < run@.len() ==> is_run_sym(#[trigger] run@[k]),
            run_val(run@) <= usize::MAX,
            val as nat == run_val(run@.skip(j as int)),
        decreases j,
    {
        proof {
            lemma_run_val_suffix(run@, j as int);
            lemma_run_val_suffix(run@, j as int - 1);
        }
        let d: usize = match run[j - 1] {
            Symbol::RunA => 1,
            Symbol::RunB => 2,
            Symbol::Byte(_) => 1,
        };
        assert(d as nat == digit(run@[j as int - 1]));
        assert(val * 2 + d == run_val(run@.skip(j as int - 1)));
        assert(run_val(run@.skip(j as int - 1)) <= run_val(run@));
        val = val * 2 + d;
        j -= 1;
    }
    proof {
        assert(run@.skip(0) =~= run@);
    }
    let mut output: Vec<u8> = Vec::new();
    let mut k: usize = 0;
    while k < val
        invariant
            k <= val,
            output@ =~= Seq::new(k as nat, |i: int| 0u8),
        decreases val - k,
    {
        output.push(0);
        assert(output@ =~= Seq::new((k + 1) as nat, |i: int| 0u8));
        k += 1;
    }
    proof {
        assert(output@ =~= Seq::new(run_val(run@), |i: int| 0u8));
    }
    output
}

/// A prefix of `z` zero bytes followed by the end or a nonzero byte is
/// exactly the maximal zero prefix.
proof fn lemma_zeros_prefix_exact(s: Seq<u8>, z: int)
    requires
        1 <= z <= s.len(),
        forall|k: int| 0 <= k < z ==> #[trigger] s[k] == 0,
        z == s.len() || s[z] != 0,
    ensures
        zeros_prefix(s) == z,
    decreases s.len(),
{
    if z > 1 {
        assert(s.skip(1)[0] == s[1]);
        assert forall|k: int| 0 <= k < z - 1 implies #[trigger] s.skip(1)[k] == 0 by {
            assert(s.skip(1)[k] == s[k + 1]);
        }
        if z - 1 < s.skip(1).len() {
            assert(s.skip(1)[z - 1] == s[z]);
        }
        lemma_zeros_prefix_exact(s.skip(1), z - 1);
        assert(zeros_prefix(s) == 1 + zeros_prefix(s.skip(1)));
    } else {
        if s.len() > 1 {
            assert(s.skip(1)[0] == s[1]);
            assert(zeros_prefix(s.skip(1)) == 0);
        } else {
            assert(s.skip(1).len() == 0);
            assert(zeros_prefix(s.skip(1)) == 0);
        }
        assert(zeros_prefix(s) == 1);
    }
}

/// Break the input at `start` into one leading group of symbols: a single
/// literal, or the numeral of the maximal zero run. Returns the symbols and
/// the position right after the group's bytes.
pub fn get_symbols(input: &Vec<u8>, start: usize) -> (r: (Vec<Symbol>, usize))
    requires
        start < input@.len(),
    ensures
        start < r.1 <= input@.len(),
        encode_spec(input@.skip(start as int)) == r.0@ + encode_spec(input@.skip(r.1 as int)),
        input@[start as int] != 0 ==> r.0@ == seq![Symbol::Byte(input@[start as int])] && r.1
            == start + 1,
        input@[start as int] == 0 ==> r.1 as int == start + zero_take(input@.skip(start as int))
            && r.0@ == run_enc(zero_take(input@.skip(start as int))),
{
    let n = input.len();
    let ghost suf = input@.skip(start as int);
    assert(suf[0] == input@[start as int]);
    if input[start] != 0 {
        let mut symbols: Vec<Symbol> = Vec::new();
        symbols.push(Symbol::Byte(input[start]));
        proof {
            assert(suf.skip(1) =~= input@.skip(start as int + 1));
            assert(symbols@ =~= seq![Symbol::Byte(suf[0])]);
        }
        (symbols, start + 1)
    } else {
        let mut j: usize = start + 1;
        while j < input.len() && input[j] == 0
            invariant
                start < j <= input@.len(),
                forall|k: int| start <= k < j ==> #[trigger] input@[k] == 0,
            decreases input@.len() - j,
        {
            j += 1;
        }
        proof {
            assert(forall|t: int| 0 <= t < suf.len() ==> #[trigger] suf[t] == input@[start + t]);
            assert(forall|t: int| 0 <= t < j - start ==> #[trigger] suf[t] == 0);
            lemma_zeros_prefix_exact(suf, j - start);
            lemma_zeros_prefix_bounds(suf);
            assert(zero_take(suf) == (j - start) as nat);
            assert(suf.skip(j - start) =~= input@.skip(j as int));
        }
        let symbols = encode_run(j - start);
        (symbols, j)
    }
}

/// Encode a whole buffer into symbols.
pub fn encode(data: &Vec<u8>) -> (r: Vec<Symbol>)
    ensures
        r@ == encode_spec(data@),
{
    let mut output: Vec<Symbol> = Vec::new();
    let mut i: usize = 0;
    proof {
        assert(data@.skip(0) =~= data@);
        assert(output@ + encode_spec(data@) =~= encode_spec(data@));
    }
    while i < data.len()
        invariant
            i <= data.len(),
            encode_spec(data@) == output@ + encode_spec(data@.skip(i as int)),
        decreases data.len() - i,
    {
        let ghost out_before = output@;
        let (mut symbols, next) = get_symbols(data, i);
        let ghost group = symbols@;
        output.append(&mut symbols);
        proof {
            assert(out_before + (group + encode_spec(data@.skip(next as int))) =~= output@
                + encode_spec(data@.skip(next as int)));
        }
        i = next;
    }
    proof {
        assert(data@.skip(data@.len() as int) =~= Seq::<u8>::empty());
        assert(output@ + Seq::<Symbol>::empty() =~= output@);
    }
    output
}

/// Break the input at `start` into one leading group of bytes: a single
/// literal byte, or the zeros of the maximal run word. Returns the bytes
/// and the position right after the group's symbols.
pub fn get_bytes(input: &Vec<Symbol>, start: usize) -> (r: (Vec<u8>, usize))
    requires
        start < input@.len(),
        decode_spec(input@.skip(start as int)).len() <= usize::MAX,
    ensures
        start < r.1 <= input@.len(),
        decode_spec(input@.skip(start as int)) == r.0@ + decode_spec(input@.skip(r.1 as int)),
        !is_run_sym(input@[start as int]) ==> r.0@ == seq![input@[start as int]->Byte_0] && r.1
            == start + 1,
        is_run_sym(input@[start as int]) ==> ({
            let m = runsyms_take(input@.skip(start as int));
            &&& r.1 as int == start + m
            &&& r.0@ == Seq::new(
                run_val(input@.skip(start as int).take(m as int)),
                |i: int| 0u8,
            )
        }),
{
    let n = input.len();
    let ghost suf = input@.skip(start as int);
    assert(suf[0] == input@[start as int]);
    if let Symbol::Byte(b) = input[start] {
        let mut bytes: Vec<u8> = Vec::new();
        bytes.push(b);
        proof {
            assert(!is_run_sym(suf[0]));
            assert(suf.skip(1) =~= input@.skip(start as int + 1));
            assert(bytes@ =~= seq![suf[0]->Byte_0]);
        }
        (bytes, start + 1)
    } else {
        let mut j: usize = start + 1;
        while j < input.len() && matches!(input[j], Symbol::RunA | Symbol::RunB)
            invariant
                start < j <= input@.len(),
                forall|k: int| start <= k < j ==> is_run_sym(#[trigger] input@[k]),
            decreases input@.len() - j,
        {
            j += 1;
        }
        let mut run: Vec<Symbol> = Vec::new();
        let mut k: usize = start;
        while k < j
            invariant
                start <= k <= j <= input@.len(),
                forall|t: int| start <= t < j ==> is_run_sym(#[trigger] input@[t]),
                run@ =~= input@.subrange(start as int, k as int),
            decreases j - k,
        {
            run.push(input[k]);
            assert(run@ =~= input@.subrange(start as int, k + 1));
            k += 1;
        }
        proof {
            assert(forall|t: int| 0 <= t < suf.len() ==> #[trigger] suf[t] == input@[start + t]);
            assert(forall|t: int| 0 <= t < j - start ==> is_run_sym(#[trigger] suf[t]));
            lemma_runsyms_prefix_exact(suf, j - start);
            lemma_runsyms_prefix_bounds(suf);
            assert(runsyms_take(suf) == (j - start) as nat);
            assert(run@ =~= suf.take(j - start));
            assert(suf.skip(j - start) =~= input@.skip(j as int));
            assert(decode_spec(suf) == Seq::new(run_val(run@), |i: int| 0u8) + decode_spec(
                input@.skip(j as int),
            ));
        }
        let bytes = decode_run(&run);
        (bytes, j)
    }
}

/// Decode a whole symbol buffer back to bytes. The decoded buffer must fit
/// in memory; that is the only bound asked of the caller.
pub fn decode(data: &Vec<Symbol>) -> (r: Vec<u8>)
    requires
        decode_spec(data@).len() <= usize::MAX,
    ensures
        r@ == decode_spec(data@),
{
    let mut output: Vec<u8> = Vec::new();
    let mut i: usize = 0;
    proof {
        assert(data@.skip(0) =~= data@);
        assert(output@ + decode_spec(data@) =~= decode_spec(data@));
    }
    while i < data.len()
        invariant
            i <= data.len(),
            decode_spec(data@).len() <= usize::MAX,
            decode_spec(data@) == output@ + decode_spec(data@.skip(i as int)),
        decreases data.len() - i,
    {
        let ghost out_before = output@;
        proof {
            assert(decode_spec(data@).len() == output@.len() + decode_spec(
                data@.skip(i as int),
            ).len());
        }
        let (mut bytes, next) = get_bytes(data, i);
        let ghost group = bytes@;
        output.append(&mut bytes);
        proof {
            assert(out_before + (group + decode_spec(data@.skip(next as int))) =~= output@
                + decode_spec(data@.skip(next as int)));
        }
        i = next;
    }
    proof {
        assert(data@.skip(data@.len() as int) =~= Seq::<Symbol>::empty());
        assert(output@ + Seq::<u8>::empty() =~= output@);
    }
    output
}

/// The encoding of a nonempty buffer is nonempty; it starts with the
/// literal of a leading nonzero byte, and with a run digit otherwise.
proof fn lemma_encode_first(s: Seq<u8>)
    requires
        s.len() > 0,
    ensures
        encode_spec(s).len() >= 1,
        s[0] != 0 ==> encode_spec(s)[0] == Symbol::Byte(s[0]),
        s[0] == 0 ==> is_run_sym(encode_spec(s)[0]),
{
    if s[0] != 0 {
        assert(encode_spec(s)[0] == seq![Symbol::Byte(s[0])][0]);
    } else {
        lemma_zeros_prefix_bounds(s);
        let z = zero_take(s);
        lemma_run_enc_shape(z);
        assert(encode_spec(s)[0] == run_enc(z)[0]);
    }
}

/// Round trip: decoding an encoded buffer gives the buffer back, for every
/// buffer.
pub proof fn lemma_round_trip(x: Seq<u8>)
    ensures
        decode_spec(encode_spec(x)) == x,
    decreases x.len(),
{
    if x.len() == 0 {
        assert(encode_spec(x) =~= Seq::<Symbol>::empty());
        assert(x =~= Seq::<u8>::empty());
    } else if x[0] != 0 {
        lemma_round_trip(x.skip(1));
        let e = encode_spec(x);
        let rest = encode_spec(x.skip(1));
        assert(e == seq![Symbol::Byte(x[0])] + rest);
        assert(e[0] == Symbol::Byte(x[0]));
        assert(!is_run_sym(e[0]));
        assert(e.skip(1) =~= rest);
        assert(decode_spec(e) == seq![x[0]] + x.skip(1));
        assert(seq![x[0]] + x.skip(1) =~= x);
    } else {
        lemma_zeros_prefix_bounds(x);
        let z = zeros_prefix(x) as int;
        assert(zero_take(x) == z);
        lemma_round_trip(x.skip(z));
        let w = run_enc(z as nat);
        let rest = encode_spec(x.skip(z));
        let e = encode_spec(x);
        assert(e == w + rest);
        lemma_run_enc_shape(z as nat);
        assert(w.len() >= 1);
        assert(forall|k: int| 0 <= k < w.len() ==> is_run_sym(#[trigger] e[k]));
        if x.skip(z).len() == 0 {
            assert(rest =~= Seq::<Symbol>::empty());
            assert(e.len() == w.len());
            lemma_runsyms_prefix_exact(e, w.len() as int);
        } else {
            assert(x.skip(z)[0] == x[z]);
            assert(x[z] != 0);
            lemma_encode_first(x.skip(z));
            assert(e[w.len() as int] == rest[0]);
            assert(!is_run_sym(e[w.len() as int]));
            lemma_runsyms_prefix_exact(e, w.len() as int);
        }
        assert(is_run_sym(e[0]));
        lemma_runsyms_prefix_bounds(e);
        let m = runsyms_take(e) as int;
        assert(m == w.len());
        assert(e.take(m) =~= w);
        assert(e.skip(m) =~= rest);
        lemma_run_numeral(z as nat);
        assert(run_val(e.take(m)) == z);
        assert(decode_spec(e) == Seq::new(z as nat, |i: int| 0u8) + x.skip(z));
        assert(Seq::new(z as nat, |i: int| 0u8) =~= x.take(z));
        assert(x.take(z) + x.skip(z) =~= x);
    }
}

} // verus!
