//! Move-to-front recoding.
//!
//! An ordered list of the 256 byte values starts in ascending order. Each
//! input byte is replaced by its current position in the list, and that
//! entry is moved to the front. Decoding mirrors the same list and move
//! rule exactly, so the two directions are inverse to one another.
use vstd::prelude::*;

verus! {

/// The starting list: every byte value in ascending order.
pub open spec fn init_list() -> Seq<u8> {
    Seq::new(256, |i: int| i as u8)
}

/// Position of the first occurrence of `b` in `list`.
pub open spec fn find_pos(list: Seq<u8>, b: u8) -> int
    decreases list.len(),
{
    if list.len() == 0 {
        0
    } else if list[0] == b {
        0
    } else {
        1 + find_pos(list.skip(1), b)
    }
}

/// The list after moving the entry at `i` to the front.
pub open spec fn move_front(list: Seq<u8>, i: int) -> Seq<u8>
    recommends
        0 <= i < list.len(),
{
    seq![list[i]] + list.take(i) + list.skip(i + 1)
}

/// What encoding means: emit each byte's current position, then promote it.
pub open spec fn encode_spec(list: Seq<u8>, data: Seq<u8>) -> Seq<u8>
    decreases data.len(),
{
    if data.len() == 0 {
        Seq::empty()
    } else {
        let i = find_pos(list, data[0]);
        seq![i as u8] + encode_spec(move_front(list, i), data.skip(1))
    }
}

/// What decoding means: read the byte at each position, then promote it.
pub open spec fn decode_spec(list: Seq<u8>, data: Seq<u8>) -> Seq<u8>
    decreases data.len(),
{
    if data.len() == 0 {
        Seq::empty()
    } else {
        let i = data[0] as int;
        seq![list[i]] + decode_spec(move_front(list, i), data.skip(1))
    }
}

/// In a list that holds `b`, the first occurrence is a valid index, holds
/// `b`, and nothing before it does.
proof fn lemma_find_pos(list: Seq<u8>, b: u8)
    requires
        list.contains(b),
    ensures
        0 <= find_pos(list, b) < list.len(),
        list[find_pos(list, b)] == b,
        forall|k: int| 0 <= k < find_pos(list, b) ==> #[trigger] list[k] != b,
    decreases list.len(),
{
    if list.len() == 0 {
    } else if list[0] == b {
    } else {
        let j = choose|j: int| 0 <= j < list.len() && list[j] == b;
        assert(list.skip(1)[j - 1] == list[j]);
        assert(list.skip(1).contains(b));
        lemma_find_pos(list.skip(1), b);
        let f = find_pos(list, b);
        assert(list.skip(1)[f - 1] == list[f]);
        assert forall|k: int| 0 <= k < f implies #[trigger] list[k] != b by {
            if k >= 1 {
                assert(list.skip(1)[k - 1] == list[k]);
            }
        }
    }
}

/// An index that holds `b` with no earlier occurrence is the first
/// occurrence.
proof fn lemma_find_pos_exact(list: Seq<u8>, b: u8, i: int)
    requires
        0 <= i < list.len(),
        list[i] == b,
        forall|k: int| 0 <= k < i ==> #[trigger] list[k] != b,
    ensures
        find_pos(list, b) == i,
    decreases list.len(),
{
    if i == 0 {
    } else {
        assert(list[0] != b);
        assert(list.skip(1)[i - 1] == list[i]);
        assert forall|k: int| 0 <= k < i - 1 implies #[trigger] list.skip(1)[k] != b by {
            assert(list.skip(1)[k] == list[k + 1]);
        }
        lemma_find_pos_exact(list.skip(1), b, i - 1);
    }
}

/// Moving an entry to the front keeps the length and the set of values.
proof fn lemma_move_front_keeps(list: Seq<u8>, i: int)
    requires
        0 <= i < list.len(),
    ensures
        move_front(list, i).len() == list.len(),
        forall|b: u8| list.contains(b) ==> #[trigger] move_front(list, i).contains(b),
{
    let m = move_front(list, i);
    assert forall|b: u8| list.contains(b) implies #[trigger] m.contains(b) by {
        let j = choose|j: int| 0 <= j < list.len() && list[j] == b;
        if j == i {
            assert(m[0] == list[i]);
        } else if j < i {
            assert(m[1 + j] == list.take(i)[j]);
            assert(m[1 + j] == b);
        } else {
            assert(m[j] == list.skip(i + 1)[j - i - 1]);
            assert(m[j] == b);
        }
    }
}

/// Round trip over any list of the 256 byte values: decoding what was
/// encoded against the same starting list gives the data back.
proof fn lemma_round_trip_from(list: Seq<u8>, data: Seq<u8>)
    requires
        list.len() == 256,
        forall|k: int| 0 <= k < data.len() ==> list.contains(#[trigger] data[k]),
    ensures
        decode_spec(list, encode_spec(list, data)) == data,
    decreases data.len(),
{
    if data.len() == 0 {
        assert(decode_spec(list, encode_spec(list, data)) =~= data);
    } else {
        assert(list.contains(data[0]));
        lemma_find_pos(list, data[0]);
        let i = find_pos(list, data[0]);
        let moved = move_front(list, i);
        lemma_move_front_keeps(list, i);
        assert forall|k: int| 0 <= k < data.skip(1).len() implies moved.contains(
            #[trigger] data.skip(1)[k],
        ) by {
            assert(data.skip(1)[k] == data[k + 1]);
            assert(list.contains(data[k + 1]));
        }
        lemma_round_trip_from(moved, data.skip(1));
        let e = encode_spec(list, data);
        let rest = encode_spec(moved, data.skip(1));
        assert(e == seq![i as u8] + rest);
        assert(e[0] == i as u8);
        assert(e[0] as int == i);
        assert(e.skip(1) =~= rest);
        assert(decode_spec(list, e) == seq![list[i]] + data.skip(1));
        assert(seq![data[0]] + data.skip(1) =~= data);
    }
}

/// Round trip: decoding an encoded buffer gives the buffer back, for every
/// buffer.
pub proof fn lemma_round_trip(data: Seq<u8>)
    ensures
        decode_spec(init_list(), encode_spec(init_list(), data)) == data,
{
    assert forall|k: int| 0 <= k < data.len() implies init_list().contains(
        #[trigger] data[k],
    ) by {
        assert(init_list()[data[k] as int] == data[k]);
    }
    lemma_round_trip_from(init_list(), data);
}

/// Build the starting list of all 256 byte values.
fn build_list() -> (r: Vec<u8>)
    ensures
        r@ == init_list(),
{
    let mut list: Vec<u8> = Vec::new();
    let mut v: usize = 0;
    while v < 256
        invariant
            v <= 256,
            list@.len() == v,
            forall|k: int| 0 <= k < v ==> #[trigger] list@[k] == k as u8,
        decreases 256 - v,
    {
        list.push(v as u8);
        v += 1;
    }
    assert(list@ =~= init_list());
    list
}

/// Promote the entry at `i` to the front of the list.
fn promote(list: &mut Vec<u8>, i: usize)
    requires
        i < old(list)@.len(),
    ensures
        final(list)@ == move_front(old(list)@, i as int),
{
    let value = list.remove(i);
    list.insert(0, value);
    assert(list@ =~= move_front(old(list)@, i as int));
}

/// Encode a whole buffer: each byte becomes its position in the evolving
/// list.
pub fn encode(data: &Vec<u8>) -> (r: Vec<u8>)
    ensures
        r@ == encode_spec(init_list(), data@),
{
    let mut list = build_list();
    let mut output: Vec<u8> = Vec::new();
    let mut t: usize = 0;
    proof {
        assert(data@.skip(0) =~= data@);
        assert(output@ + encode_spec(list@, data@) =~= encode_spec(list@, data@));
        assert forall|b: u8| #[trigger] list@.contains(b) by {
            assert(list@[b as int] == b);
        }
    }
    while t < data.len()
        invariant
            t <= data.len(),
            list@.len() == 256,
            forall|b: u8| #[trigger] list@.contains(b),
            encode_spec(init_list(), data@) == output@ + encode_spec(
                list@,
                data@.skip(t as int),
            ),
        decreases data.len() - t,
    {
        let b = data[t];
        assert(list@.contains(b));
        let ghost w = choose|j: int| 0 <= j < list@.len() && list@[j] == b;
        let mut pos: usize = 0;
        while list[pos] != b
            invariant
                list@.len() == 256,
                0 <= pos <= w < list@.len(),
                list@[w] == b,
                forall|k: int| 0 <= k < pos ==> #[trigger] list@[k] != b,
            decreases w - pos,
        {
            pos += 1;
        }
        proof {
            lemma_find_pos_exact(list@, b, pos as int);
            let suf = data@.skip(t as int);
            assert(suf[0] == b);
            assert(suf.skip(1) =~= data@.skip(t as int + 1));
            assert(encode_spec(list@, suf) == seq![pos as u8] + encode_spec(
                move_front(list@, pos as int),
                data@.skip(t as int + 1),
            ));
        }
        let ghost out_before = output@;
        let ghost list_before = list@;
        output.push(pos as u8);
        promote(&mut list, pos);
        proof {
            lemma_move_front_keeps(list_before, pos as int);
            assert(forall|b2: u8| #[trigger] list@.contains(b2));
            assert(out_before + (seq![pos as u8] + encode_spec(list@, data@.skip(t as int + 1)))
                =~= output@ + encode_spec(list@, data@.skip(t as int + 1)));
        }
        t += 1;
    }
    proof {
        assert(data@.skip(data@.len() as int) =~= Seq::<u8>::empty());
        assert(output@ + Seq::<u8>::empty() =~= output@);
    }
    output
}

/// Decode a whole buffer: each position selects a byte from the evolving
/// list. Total: every byte value is a valid position in a 256-entry list.
pub fn decode(data: &Vec<u8>) -> (r: Vec<u8>)
    ensures
        r@ == decode_spec(init_list(), data@),
{
    let mut list = build_list();
    let mut output: Vec<u8> = Vec::new();
    let mut t: usize = 0;
    proof {
        assert(data@.skip(0) =~= data@);
        assert(output@ + decode_spec(list@, data@) =~= decode_spec(list@, data@));
    }
    while t < data.len()
        invariant
            t <= data.len(),
            list@.len() == 256,
            decode_spec(init_list(), data@) == output@ + decode_spec(
                list@,
                data@.skip(t as int),
            ),
        decreases data.len() - t,
    {
        let pos = data[t] as usize;
        let b = list[pos];
        proof {
            let suf = data@.skip(t as int);
            assert(suf[0] == data@[t as int]);
            assert(suf.skip(1) =~= data@.skip(t as int + 1));
            assert(decode_spec(list@, suf) == seq![list@[pos as int]] + decode_spec(
                move_front(list@, pos as int),
                data@.skip(t as int + 1),
            ));
        }
        let ghost out_before = output@;
        output.push(b);
        promote(&mut list, pos);
        proof {
            assert(out_before + (seq![b] + decode_spec(list@, data@.skip(t as int + 1))) =~=
                output@ + decode_spec(list@, data@.skip(t as int + 1)));
        }
        t += 1;
    }
    proof {
        assert(data@.skip(data@.len() as int) =~= Seq::<u8>::empty());
        assert(output@ + Seq::<u8>::empty() =~= output@);
    }
    output
}

} // verus!
