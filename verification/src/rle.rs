//! Run-length coding of bytes: plain, with one count byte for each run,
//! and improved, with one or two count bytes as the run needs.

use vstd::prelude::*;

verus! {

/// `n` times the byte `byte`.
pub open spec fn run(n: int, byte: u8) -> Seq<u8> {
    Seq::new(n as nat, |i: int| byte)
}

/// The bytes that the runs `runs` stand for, each given as the count and
/// the byte.
pub open spec fn expand(runs: Seq<(u8, u8)>) -> Seq<u8>
    decreases runs.len(),
{
    if runs.len() == 0 {
        Seq::empty()
    } else {
        expand(runs.drop_last()) + run(runs.last().0 as int, runs.last().1)
    }
}

/// Codes `data`, which may not be empty, as runs of up to 255 equal bytes,
/// each as its count and its byte.
pub fn rle_compress(data: &[u8]) -> (compressed: Vec<(u8, u8)>)
    requires
        data.len() > 0,
    ensures
        expand(compressed@) == data@,
        forall|k: int| 0 <= k < compressed.len() ==> (#[trigger] compressed[k]).0 >= 1,
{
    let mut compressed: Vec<(u8, u8)> = Vec::new();
    let mut count: u8 = 1;
    let mut current = data[0];
    let mut at: usize = 1;
    proof {
        assert(expand(compressed@) + run(count as int, current) =~= data@.take(1));
    }
    while at < data.len()
        invariant
            1 <= at <= data.len(),
            1 <= count,
            expand(compressed@) + run(count as int, current) == data@.take(at as int),
            forall|k: int| 0 <= k < compressed.len() ==> (#[trigger] compressed[k]).0 >= 1,
        decreases data.len() - at,
    {
        let byte = data[at];
        let ghost done = expand(compressed@);
        if byte == current && count < 255 {
            proof {
                assert(run(count + 1, current) =~= run(count as int, current).push(byte));
                assert(data@.take(at + 1) =~= data@.take(at as int).push(byte));
                assert(done + run(count + 1, current) =~= (done + run(count as int, current)).push(
                    byte,
                ));
            }
            count += 1;
        } else {
            let ghost kept = compressed@;
            compressed.push((count, current));
            proof {
                let grown = compressed@;
                assert(grown.drop_last() =~= kept);
                assert(grown.last() == (count, current));
                assert(expand(grown) == expand(grown.drop_last()) + run(count as int, current));
                assert(run(1, byte) =~= seq![byte]);
                assert(data@.take(at + 1) =~= data@.take(at as int).push(byte));
                assert(expand(grown) + run(1, byte) =~= data@.take(at + 1));
            }
            current = byte;
            count = 1;
        }
        at += 1;
    }
    let ghost done = compressed@;
    compressed.push((count, current));
    proof {
        assert(compressed@.drop_last() =~= done);
        assert(data@.take(data.len() as int) =~= data@);
    }
    compressed
}

/// The bytes that the runs `compressed` stand for.
pub fn rle_decompress(compressed: &[(u8, u8)]) -> (decompressed: Vec<u8>)
    ensures
        decompressed@ == expand(compressed@),
{
    let mut decompressed: Vec<u8> = Vec::new();
    let mut at: usize = 0;
    while at < compressed.len()
        invariant
            at <= compressed.len(),
            decompressed@ == expand(compressed@.take(at as int)),
        decreases compressed.len() - at,
    {
        let (count, byte) = compressed[at];
        let ghost done = decompressed@;
        let mut written: u8 = 0;
        while written < count
            invariant
                written <= count,
                decompressed@ == done + run(written as int, byte),
            decreases count - written,
        {
            decompressed.push(byte);
            proof {
                assert(run(written + 1, byte) =~= run(written as int, byte).push(byte));
                assert(done + run(written + 1, byte) =~= (done + run(written as int, byte)).push(
                    byte,
                ));
            }
            written += 1;
        }
        proof {
            let upto = compressed@.take(at + 1);
            assert(upto.drop_last() =~= compressed@.take(at as int));
            assert(upto.last() == (count, byte));
        }
        at += 1;
    }
    proof {
        assert(compressed@.take(compressed.len() as int) =~= compressed@);
    }
    decompressed
}

/// The count that a code word starting with the byte `first` gives, with
/// `second` as its second byte where it has one.
pub open spec fn word_count(first: u8, second: u8) -> int {
    if first & 128 == 0 {
        first as int
    } else {
        (((first & 127) as usize) << 8 | second as usize) as int
    }
}

/// The number of bytes of a code word starting with the byte `first`: the
/// count bytes and the data byte.
pub open spec fn word_len(first: u8) -> int {
    if first & 128 == 0 {
        2
    } else {
        3
    }
}

/// Whether `code` is made of whole code words.
pub open spec fn well_coded(code: Seq<u8>) -> bool
    decreases code.len(),
{
    if code.len() == 0 {
        true
    } else {
        code.len() >= word_len(code[0]) && well_coded(code.skip(word_len(code[0])))
    }
}

/// The bytes that the code words of `code` stand for.
pub open spec fn unpack(code: Seq<u8>) -> Seq<u8>
    decreases code.len(),
{
    if code.len() == 0 || code.len() < word_len(code[0]) {
        Seq::empty()
    } else {
        let len = word_len(code[0]);
        run(word_count(code[0], code[1]), code[len - 1]) + unpack(code.skip(len))
    }
}

/// Code words behind code words are code words, and stand for what both
/// stand for, one behind the other.
pub proof fn lemma_code_joins(a: Seq<u8>, b: Seq<u8>)
    requires
        well_coded(a),
        well_coded(b),
    ensures
        well_coded(a + b),
        unpack(a + b) == unpack(a) + unpack(b),
    decreases a.len(),
{
    if a.len() == 0 {
        assert(a + b =~= b);
        assert(unpack(a) + unpack(b) =~= unpack(b));
    } else {
        let len = word_len(a[0]);
        assert((a + b)[0] == a[0]);
        assert((a + b)[1] == a[1]);
        assert((a + b)[len - 1] == a[len - 1]);
        assert((a + b).skip(len) =~= a.skip(len) + b);
        lemma_code_joins(a.skip(len), b);
        assert(unpack(a + b) =~= unpack(a) + unpack(b));
    }
}

/// Puts the code word for a run of `count` times `current` behind
/// `compressed`: one count byte for a count below 128, else two, of which
/// the first has its highest bit set.
fn push_word(compressed: &mut Vec<u8>, count: u32, current: u8)
    requires
        1 <= count <= 65535,
        well_coded(old(compressed)@),
    ensures
        well_coded(final(compressed)@),
        count < 32768 ==> unpack(final(compressed)@) == unpack(old(compressed)@) + run(
            count as int,
            current,
        ),
{
    let ghost before = compressed@;
    if count < 128 {
        compressed.push(count as u8);
        compressed.push(current);
        proof {
            let word = seq![count as u8, current];
            let first = count as u8;
            assert(first & 128 == 0) by (bit_vector)
                requires
                    first < 128,
            ;
            reveal_with_fuel(well_coded, 2);
            reveal_with_fuel(unpack, 2);
            assert(word.skip(2) =~= Seq::<u8>::empty());
            assert(word[0] == first && word[1] == current);
            assert(well_coded(word));
            assert(unpack(word.skip(2)) =~= Seq::<u8>::empty());
            assert(unpack(word) =~= run(count as int, current));
            assert(compressed@ =~= before + word);
            lemma_code_joins(before, word);
        }
    } else {
        proof {
            assert(count >> 8 < 256 && count & 0xFF < 256) by (bit_vector)
                requires
                    count <= 65535,
            ;
        }
        let high = 128 | (count >> 8) as u8;
        let low = (count & 0xFF) as u8;
        compressed.push(high);
        compressed.push(low);
        compressed.push(current);
        proof {
            let word = seq![high, low, current];
            let top = (count >> 8) as u8;
            assert(high & 128 != 0) by (bit_vector)
                requires
                    high == 128 | top,
            ;
            reveal_with_fuel(well_coded, 2);
            reveal_with_fuel(unpack, 2);
            assert(word.skip(3) =~= Seq::<u8>::empty());
            assert(word[0] == high && word[1] == low && word[2] == current);
            assert(well_coded(word));
            assert(unpack(word.skip(3)) =~= Seq::<u8>::empty());
            if count < 32768 {
                assert((((high & 127) as usize) << 8 | low as usize) == count as usize) by (
                    bit_vector)
                    requires
                        128 <= count < 32768,
                        top == (count >> 8) as u8,
                        high == 128 | top,
                        low == (count & 0xFF) as u8,
                ;
                assert(unpack(word) =~= run(count as int, current));
            }
            assert(compressed@ =~= before + word);
            lemma_code_joins(before, word);
        }
    }
}

/// The number of equal bytes at the end of `s`.
pub open spec fn tail_run(s: Seq<u8>) -> nat
    decreases s.len(),
{
    if s.len() == 0 {
        0
    } else if s.len() >= 2 && s[s.len() - 1] == s[s.len() - 2] {
        tail_run(s.drop_last()) + 1
    } else {
        1
    }
}

/// The length of the longest stretch of equal bytes in `s`.
pub open spec fn max_run(s: Seq<u8>) -> nat
    decreases s.len(),
{
    if s.len() == 0 {
        0
    } else if max_run(s.drop_last()) > tail_run(s) {
        max_run(s.drop_last())
    } else {
        tail_run(s)
    }
}

/// No stretch of equal bytes that ends within `s` is longer than the
/// longest of `s`.
pub proof fn lemma_max_run_of_prefix(s: Seq<u8>, k: int)
    requires
        0 <= k <= s.len(),
    ensures
        tail_run(s.take(k)) <= max_run(s.take(k)) <= max_run(s),
    decreases s.len() - k,
{
    if k < s.len() {
        lemma_max_run_of_prefix(s, k + 1);
        assert(s.take(k + 1).drop_last() =~= s.take(k));
    } else {
        assert(s.take(k) =~= s);
    }
}

/// Codes `data`, which may not be empty, as runs of up to 65535 equal
/// bytes. What comes out is made of whole code words; it stands for `data`
/// where `data` has no stretch of 32768 equal bytes, whose count the code
/// words cannot hold.
pub fn improved_rle_compress(data: &[u8]) -> (compressed: Vec<u8>)
    requires
        data.len() > 0,
    ensures
        well_coded(compressed@),
        max_run(data@) < 32768 ==> unpack(compressed@) == data@,
{
    let mut compressed: Vec<u8> = Vec::new();
    let mut count: u32 = 1;
    let mut current = data[0];
    let mut at: usize = 1;
    proof {
        assert(unpack(compressed@) + run(count as int, current) =~= data@.take(1));
        assert(data@.take(1).drop_last() =~= Seq::<u8>::empty());
    }
    while at < data.len()
        invariant
            1 <= at <= data.len(),
            1 <= count <= 65535,
            well_coded(compressed@),
            current == data[at - 1],
            count <= tail_run(data@.take(at as int)),
            max_run(data@) < 32768 ==> unpack(compressed@) + run(count as int, current)
                == data@.take(at as int),
        decreases data.len() - at,
    {
        let byte = data[at];
        let ghost done = unpack(compressed@);
        proof {
            assert(data@.take(at + 1).drop_last() =~= data@.take(at as int));
            assert(data@.take(at + 1) =~= data@.take(at as int).push(byte));
            lemma_max_run_of_prefix(data@, at as int);
        }
        if byte == current && count < 65535 {
            proof {
                assert(run(count + 1, current) =~= run(count as int, current).push(byte));
                assert(done + run(count + 1, current) =~= (done + run(count as int, current)).push(
                    byte,
                ));
            }
            count += 1;
        } else {
            push_word(&mut compressed, count, current);
            proof {
                assert(run(1, byte) =~= seq![byte]);
                if max_run(data@) < 32768 {
                    assert(unpack(compressed@) + run(1, byte) =~= data@.take(at + 1));
                }
            }
            current = byte;
            count = 1;
        }
        at += 1;
    }
    proof {
        lemma_max_run_of_prefix(data@, at as int);
        assert(data@.take(data.len() as int) =~= data@);
    }
    push_word(&mut compressed, count, current);
    compressed
}

/// The bytes that the code words of `compressed` stand for.
pub fn improved_rle_decompress(compressed: &[u8]) -> (decompressed: Vec<u8>)
    requires
        well_coded(compressed@),
    ensures
        decompressed@ == unpack(compressed@),
{
    let mut decompressed: Vec<u8> = Vec::new();
    let mut i: usize = 0;
    proof {
        assert(compressed@.skip(0) =~= compressed@);
        assert(decompressed@ + unpack(compressed@.skip(0)) =~= unpack(compressed@));
    }
    while i < compressed.len()
        invariant
            i <= compressed.len(),
            well_coded(compressed@.skip(i as int)),
            decompressed@ + unpack(compressed@.skip(i as int)) == unpack(compressed@),
        decreases compressed.len() - i,
    {
        let ghost rest = compressed@.skip(i as int);
        proof {
            assert(rest[0] == compressed[i as int]);
            assert(rest.len() >= word_len(rest[0]));
            assert(rest[1] == compressed[i + 1]);
            assert(rest[word_len(rest[0]) - 1] == compressed[i + word_len(rest[0]) - 1]);
        }
        let first = compressed[i];
        let mut count = first as usize;
        i += 1;
        if first & 128 != 0 {
            let second = compressed[i];
            proof {
                let masked = first & 127;
                assert(((masked as usize) << 8 | second as usize) < 32768) by (bit_vector)
                    requires
                        masked == first & 127,
                ;
                assert(count & 127 == (first & 127) as usize) by (bit_vector)
                    requires
                        count == first as usize,
                ;
            }
            count = (count & 127) << 8 | second as usize;
            i += 1;
        }
        let byte = compressed[i];
        i += 1;
        let ghost done = decompressed@;
        let mut written: usize = 0;
        while written < count
            invariant
                written <= count,
                decompressed@ == done + run(written as int, byte),
            decreases count - written,
        {
            decompressed.push(byte);
            proof {
                assert(run(written + 1, byte) =~= run(written as int, byte).push(byte));
                assert(done + run(written + 1, byte) =~= (done + run(written as int, byte)).push(
                    byte,
                ));
            }
            written += 1;
        }
        proof {
            assert(rest.skip(word_len(rest[0])) =~= compressed@.skip(i as int));
            assert(count == word_count(rest[0], rest[1]));
            assert(done + run(count as int, byte) + unpack(compressed@.skip(i as int)) =~= done
                + unpack(rest));
        }
    }
    proof {
        assert(unpack(compressed@.skip(i as int)) =~= Seq::<u8>::empty());
    }
    decompressed
}

/// Whether `code` is made of whole code words, so that it can be
/// decompressed.
pub fn well_formed(code: &[u8]) -> (ok: bool)
    ensures
        ok == well_coded(code@),
{
    let mut i: usize = 0;
    proof {
        assert(code@.skip(0) =~= code@);
    }
    while i < code.len()
        invariant
            i <= code.len(),
            well_coded(code@) == well_coded(code@.skip(i as int)),
        decreases code.len() - i,
    {
        let ghost rest = code@.skip(i as int);
        proof {
            assert(rest[0] == code[i as int]);
        }
        let len: usize = if code[i] & 128 == 0 {
            2
        } else {
            3
        };
        if code.len() - i < len {
            return false;
        }
        proof {
            assert(rest.skip(len as int) =~= code@.skip(i + len));
        }
        i += len;
    }
    true
}

} // verus!
