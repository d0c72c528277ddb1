use vstd::prelude::*;

verus! {

/// The longest run that a single pair can describe.
pub const MAX_RUN: u8 = 255;

/// Why a byte stream could not be decoded.
#[derive(Debug, Clone, Copy, PartialEq, Eq, Structural)]
pub enum DecodeError {
    /// The stream has odd length: its last pair has a value and no count.
    MalformedInput,
}

/// `n` copies of `v`.
pub open spec fn repeat(v: u8, n: nat) -> Seq<u8> {
    Seq::new(n, |_i: int| v)
}

/// What the pairs of `e` stand for, read from the front two bytes at a time.
/// A trailing byte without a count contributes nothing.
pub open spec fn decode_spec(e: Seq<u8>) -> Seq<u8>
    decreases e.len(),
{
    if e.len() < 2 {
        Seq::empty()
    } else {
        repeat(e[0], e[1] as nat) + decode_spec(e.subrange(2, e.len() as int))
    }
}

/// Appending one pair to a whole number of pairs appends its run.
pub proof fn lemma_decode_push_pair(e: Seq<u8>, v: u8, c: u8)
    requires
        e.len() % 2 == 0,
    ensures
        decode_spec(e + seq![v, c]) == decode_spec(e) + repeat(v, c as nat),
    decreases e.len(),
{
    let f = e + seq![v, c];
    if e.len() == 0 {
        assert(f.subrange(2, f.len() as int) =~= Seq::<u8>::empty());
        assert(decode_spec(Seq::<u8>::empty()) == Seq::<u8>::empty());
        assert(f[0] == v && f[1] == c);
        assert(decode_spec(f) =~= repeat(v, c as nat));
    } else {
        let t = e.subrange(2, e.len() as int);
        assert(f.subrange(2, f.len() as int) =~= t + seq![v, c]);
        lemma_decode_push_pair(t, v, c);
        assert(decode_spec(f) =~= decode_spec(e) + repeat(v, c as nat));
    }
}

/// The value byte of the `k`-th pair of `e`.
pub open spec fn pair_value(e: Seq<u8>, k: int) -> u8 {
    e[2 * k]
}

/// The count byte of the `k`-th pair of `e`.
pub open spec fn pair_count(e: Seq<u8>, k: int) -> u8 {
    e[2 * k + 1]
}

/// `e` is a whole number of pairs in the form the encoder produces: every
/// count is at least one, and a pair may be followed by another of the same
/// value only when its own count is the cap. So each maximal run of equal
/// bytes is cut into full pairs of `MAX_RUN` and one final, shorter or full,
/// pair.
pub open spec fn is_canonical(e: Seq<u8>) -> bool {
    &&& e.len() % 2 == 0
    &&& forall|k: int| 0 <= k < e.len() / 2 ==> #[trigger] pair_count(e, k) >= 1
    &&& forall|k: int|
        0 <= k && k + 1 < e.len() / 2 && pair_value(e, k) == pair_value(e, k + 1)
            ==> #[trigger] pair_count(e, k) == MAX_RUN
}

/// The encoding of `s`: the one canonical pair sequence that decodes to `s`
/// (it exists and is unique, see `lemma_encoding_exists` and
/// `lemma_canonical_unique`).
pub open spec fn encoding_of(s: Seq<u8>) -> Seq<u8> {
    choose|e: Seq<u8>| is_canonical(e) && decode_spec(e) == s
}

/// Appending a pair keeps an encoding canonical when the pair has a count and
/// does not continue a last pair that is below the cap.
proof fn lemma_canonical_push(e: Seq<u8>, v: u8, c: u8)
    requires
        is_canonical(e),
        c >= 1,
        e.len() >= 2 && e[e.len() - 2] == v ==> e[e.len() - 1] == MAX_RUN,
    ensures
        is_canonical(e + seq![v, c]),
{
    let f = e + seq![v, c];
    let n: int = e.len() as int / 2;
    assert forall|k: int| 0 <= k < f.len() / 2 implies #[trigger] pair_count(f, k) >= 1 by {
        if k < n {
            assert(pair_count(f, k) == pair_count(e, k));
        }
    }
    assert forall|k: int|
        0 <= k && k + 1 < f.len() / 2 && pair_value(f, k) == pair_value(f, k + 1) implies
        #[trigger] pair_count(f, k) == MAX_RUN by {
        if k + 1 < n {
            assert(pair_count(f, k) == pair_count(e, k));
            assert(pair_value(f, k) == pair_value(e, k));
            assert(pair_value(f, k + 1) == pair_value(e, k + 1));
        } else {
            assert(k == n - 1);
        }
    }
}

/// The converse of `lemma_canonical_push`: a canonical encoding without its
/// last pair is canonical, and that pair is related to the one before it as
/// canonical form asks.
proof fn lemma_canonical_pop(e: Seq<u8>, v: u8, c: u8)
    requires
        is_canonical(e + seq![v, c]),
    ensures
        is_canonical(e),
        c >= 1,
        e.len() >= 2 && e[e.len() - 2] == v ==> e[e.len() - 1] == MAX_RUN,
{
    let f = e + seq![v, c];
    let n: int = e.len() as int / 2;
    assert(pair_count(f, n) == c);
    assert forall|k: int| 0 <= k < e.len() / 2 implies #[trigger] pair_count(e, k) >= 1 by {
        assert(pair_count(f, k) == pair_count(e, k));
    }
    assert forall|k: int|
        0 <= k && k + 1 < e.len() / 2 && pair_value(e, k) == pair_value(e, k + 1) implies
        #[trigger] pair_count(e, k) == MAX_RUN by {
        assert(pair_count(f, k) == pair_count(e, k));
        assert(pair_value(f, k) == pair_value(e, k));
        assert(pair_value(f, k + 1) == pair_value(e, k + 1));
    }
    if e.len() >= 2 && e[e.len() - 2] == v {
        assert(pair_value(f, n - 1) == pair_value(f, n));
        assert(pair_count(f, n - 1) == MAX_RUN);
    }
}

/// One more input byte `b` after a canonical encoding whose last pair is
/// `(v, c)`: either that pair grows by one, or a new pair `(b, 1)` begins.
/// Both keep the encoding canonical and describe the input with `b` added.
proof fn lemma_extend(p: Seq<u8>, v: u8, c: u8, b: u8)
    requires
        is_canonical(p + seq![v, c]),
    ensures
        b == v && c < MAX_RUN ==> {
            &&& is_canonical(p + seq![v, (c + 1) as u8])
            &&& decode_spec(p + seq![v, (c + 1) as u8]) == decode_spec(p + seq![v, c]).push(b)
        },
        !(b == v && c < MAX_RUN) ==> {
            &&& is_canonical(p + seq![v, c] + seq![b, 1])
            &&& decode_spec(p + seq![v, c] + seq![b, 1]) == decode_spec(p + seq![v, c]).push(b)
        },
{
    lemma_canonical_pop(p, v, c);
    lemma_decode_push_pair(p, v, c);
    if b == v && c < MAX_RUN {
        let c1 = (c + 1) as u8;
        lemma_canonical_push(p, v, c1);
        lemma_decode_push_pair(p, v, c1);
        assert(repeat(v, c1 as nat) =~= repeat(v, c as nat).push(b));
        assert(decode_spec(p) + repeat(v, c1 as nat) =~= (decode_spec(p) + repeat(
            v,
            c as nat,
        )).push(b));
    } else {
        let e = p + seq![v, c];
        assert(e[e.len() - 2] == v && e[e.len() - 1] == c);
        lemma_canonical_push(e, b, 1);
        lemma_decode_push_pair(e, b, 1);
        assert(repeat(b, 1) =~= seq![b]);
    }
}

/// Every byte sequence has a canonical encoding.
pub proof fn lemma_encoding_exists(s: Seq<u8>)
    ensures
        exists|e: Seq<u8>| is_canonical(e) && decode_spec(e) == s,
    decreases s.len(),
{
    if s.len() == 0 {
        assert(is_canonical(Seq::<u8>::empty()));
        assert(decode_spec(Seq::<u8>::empty()) == s);
    } else {
        let t = s.drop_last();
        let b = s.last();
        lemma_encoding_exists(t);
        let e = choose|e: Seq<u8>| is_canonical(e) && decode_spec(e) == t;
        assert(t.push(b) =~= s);
        if e.len() == 0 {
            lemma_canonical_push(e, b, 1);
            lemma_decode_push_pair(e, b, 1);
            assert(repeat(b, 1) =~= seq![b]);
            assert(e + seq![b, 1] =~= seq![b, 1]);
            assert(decode_spec(seq![b, 1]) =~= s);
        } else {
            let p = e.subrange(0, e.len() - 2);
            let v = e[e.len() - 2];
            let c = e[e.len() - 1];
            assert(p + seq![v, c] =~= e);
            lemma_extend(p, v, c, b);
            if b == v && c < MAX_RUN {
                assert(decode_spec(p + seq![v, (c + 1) as u8]) == s);
            } else {
                assert(decode_spec(p + seq![v, c] + seq![b, 1]) == s);
            }
        }
    }
}

/// A canonical encoding without its first pair is canonical, and its first
/// pair is related to the next one as canonical form asks.
proof fn lemma_canonical_tail(e: Seq<u8>)
    requires
        is_canonical(e),
        e.len() >= 2,
    ensures
        is_canonical(e.subrange(2, e.len() as int)),
        e[1] >= 1,
        e.len() >= 4 && e[2] == e[0] ==> e[1] == MAX_RUN,
{
    let t = e.subrange(2, e.len() as int);
    assert(pair_count(e, 0) >= 1);
    if e.len() >= 4 && e[2] == e[0] {
        assert(pair_value(e, 0) == pair_value(e, 1));
        assert(pair_count(e, 0) == MAX_RUN);
    }
    assert forall|k: int| 0 <= k < t.len() / 2 implies #[trigger] pair_count(t, k) >= 1 by {
        assert(pair_count(t, k) == pair_count(e, k + 1));
    }
    assert forall|k: int|
        0 <= k && k + 1 < t.len() / 2 && pair_value(t, k) == pair_value(t, k + 1) implies
        #[trigger] pair_count(t, k) == MAX_RUN by {
        assert(pair_count(t, k) == pair_count(e, k + 1));
        assert(pair_value(t, k) == pair_value(e, k + 1));
        assert(pair_value(t, k + 1) == pair_value(e, k + 2));
    }
}

/// A stream whose first count is non-zero decodes to something that starts
/// with its first value.
proof fn lemma_decode_first(e: Seq<u8>)
    requires
        e.len() >= 2,
        e[1] >= 1,
    ensures
        decode_spec(e).len() >= e[1],
        decode_spec(e)[0] == e[0],
{
}

/// Two canonical encodings of the same bytes are equal.
pub proof fn lemma_canonical_unique(a: Seq<u8>, b: Seq<u8>)
    requires
        is_canonical(a),
        is_canonical(b),
        decode_spec(a) == decode_spec(b),
    ensures
        a == b,
    decreases a.len(),
{
    if a.len() == 0 && b.len() == 0 {
        assert(a =~= b);
    } else if a.len() == 0 {
        lemma_canonical_tail(b);
        lemma_decode_first(b);
    } else if b.len() == 0 {
        lemma_canonical_tail(a);
        lemma_decode_first(a);
    } else {
        let s = decode_spec(a);
        let ta = a.subrange(2, a.len() as int);
        let tb = b.subrange(2, b.len() as int);
        lemma_canonical_tail(a);
        lemma_canonical_tail(b);
        lemma_decode_first(a);
        lemma_decode_first(b);
        assert(s == repeat(a[0], a[1] as nat) + decode_spec(ta));
        assert(s == repeat(b[0], b[1] as nat) + decode_spec(tb));
        assert(a[0] == b[0]);
        if a[1] < b[1] {
            // The first run of `a` stops short of the first run of `b`, so the
            // next pair of `a` continues the same value below the cap.
            assert(s[a[1] as int] == b[0]);
            assert(decode_spec(ta).len() >= 1);
            lemma_canonical_tail(ta);
            lemma_decode_first(ta);
            assert(decode_spec(ta)[0] == s[a[1] as int]);
            assert(ta[0] == a[2]);
        } else if b[1] < a[1] {
            assert(s[b[1] as int] == a[0]);
            assert(decode_spec(tb).len() >= 1);
            lemma_canonical_tail(tb);
            lemma_decode_first(tb);
            assert(decode_spec(tb)[0] == s[b[1] as int]);
            assert(tb[0] == b[2]);
        }
        assert(a[1] == b[1]);
        assert(decode_spec(ta) =~= s.subrange(a[1] as int, s.len() as int));
        assert(decode_spec(tb) =~= s.subrange(b[1] as int, s.len() as int));
        lemma_canonical_unique(ta, tb);
        assert(a =~= seq![a[0], a[1]] + ta);
        assert(b =~= seq![b[0], b[1]] + tb);
    }
}

/// The encoding of `s` is canonical and decodes to `s`, and it is the only
/// sequence that is both.
pub proof fn lemma_encoding_of(s: Seq<u8>, e: Seq<u8>)
    ensures
        is_canonical(encoding_of(s)),
        decode_spec(encoding_of(s)) == s,
        is_canonical(e) && decode_spec(e) == s ==> e == encoding_of(s),
{
    lemma_encoding_exists(s);
    if is_canonical(e) && decode_spec(e) == s {
        lemma_canonical_unique(e, encoding_of(s));
    }
}

/// Compresses `bytes` into pairs `(value, count)`, one pair for each run of
/// equal bytes, runs longer than `MAX_RUN` cut into full pairs and a rest.
pub fn encode(bytes: &[u8]) -> (r: Vec<u8>)
    ensures
        r@ == encoding_of(bytes@),
{
    let mut encoding: Vec<u8> = Vec::new();
    if bytes.len() == 0 {
        proof {
            assert(is_canonical(encoding@));
            assert(decode_spec(encoding@) =~= bytes@);
            lemma_encoding_of(bytes@, encoding@);
        }
        return encoding;
    }
    let mut value: u8 = bytes[0];
    let mut occurrences: u8 = 1;
    proof {
        lemma_canonical_push(encoding@, value, 1);
        lemma_decode_push_pair(encoding@, value, 1);
        assert(encoding@ + seq![value, 1u8] =~= seq![value, 1u8]);
        assert(repeat(value, 1) =~= bytes@.subrange(0, 1));
        assert(decode_spec(Seq::<u8>::empty()) == Seq::<u8>::empty());
        assert(Seq::<u8>::empty() + repeat(value, 1) =~= repeat(value, 1));
    }
    let mut i: usize = 1;
    while i < bytes.len()
        invariant
            1 <= i <= bytes@.len(),
            is_canonical(encoding@ + seq![value, occurrences]),
            decode_spec(encoding@ + seq![value, occurrences]) == bytes@.subrange(0, i as int),
        decreases bytes@.len() - i,
    {
        let b = bytes[i];
        proof {
            lemma_extend(encoding@, value, occurrences, b);
            assert(bytes@.subrange(0, i + 1) =~= bytes@.subrange(0, i as int).push(b));
        }
        if b == value && occurrences < MAX_RUN {
            occurrences = occurrences + 1;
        } else {
            let ghost closed = encoding@ + seq![value, occurrences];
            encoding.push(value);
            encoding.push(occurrences);
            value = b;
            occurrences = 1;
            assert(encoding@ =~= closed);
        }
        i = i + 1;
    }
    let ghost last = encoding@ + seq![value, occurrences];
    encoding.push(value);
    encoding.push(occurrences);
    proof {
        assert(encoding@ =~= last);
        assert(bytes@.subrange(0, i as int) =~= bytes@);
        lemma_encoding_of(bytes@, encoding@);
    }
    encoding
}

/// Expands an encoded stream back to raw bytes.
///
/// Each pair `(value, count)` becomes `count` copies of `value`, in order.
/// A stream of odd length is rejected rather than read past its end.
pub fn decode(bytes: &[u8]) -> (r: Result<Vec<u8>, DecodeError>)
    ensures
        r is Err <==> bytes@.len() % 2 == 1,
        r matches Err(e) ==> e == DecodeError::MalformedInput,
        r matches Ok(d) ==> d@ == decode_spec(bytes@),
{
    let mut decoding: Vec<u8> = Vec::new();
    let mut i: usize = 0;
    while i < bytes.len()
        invariant
            i <= bytes@.len(),
            i % 2 == 0,
            decoding@ == decode_spec(bytes@.subrange(0, i as int)),
        decreases bytes@.len() - i,
    {
        if i + 1 >= bytes.len() {
            return Err(DecodeError::MalformedInput);
        }
        let value = bytes[i];
        let count = bytes[i + 1];
        let ghost before = decoding@;
        let mut j: u8 = 0;
        while j < count
            invariant
                j <= count,
                decoding@ == before + repeat(value, j as nat),
            decreases count - j,
        {
            decoding.push(value);
            j = j + 1;
            assert(decoding@ =~= before + repeat(value, j as nat));
        }
        proof {
            lemma_decode_push_pair(bytes@.subrange(0, i as int), value, count);
            assert(bytes@.subrange(0, i + 2) =~= bytes@.subrange(0, i as int) + seq![value, count]);
        }
        i = i + 2;
    }
    assert(bytes@.subrange(0, i as int) =~= bytes@);
    Ok(decoding)
}

/// Decoding the encoding of any byte sequence gives that sequence back, and
/// the encoding has even length, so the decoder accepts it.
pub proof fn lemma_round_trip(b: Seq<u8>)
    ensures
        encoding_of(b).len() % 2 == 0,
        decode_spec(encoding_of(b)) == b,
{
    lemma_encoding_of(b, b);
}

/// A run of exactly `MAX_RUN` equal bytes becomes one full pair; one byte
/// more starts a second pair of the same value with count one.
pub proof fn lemma_run_cap(v: u8)
    ensures
        encoding_of(repeat(v, 255)) == seq![v, 255u8],
        encoding_of(repeat(v, 256)) == seq![v, 255u8, v, 1u8],
{
    let one = seq![v, 255u8];
    let two = seq![v, 255u8, v, 1u8];
    lemma_canonical_push(Seq::<u8>::empty(), v, 255);
    lemma_canonical_push(one, v, 1);
    lemma_decode_push_pair(Seq::<u8>::empty(), v, 255);
    lemma_decode_push_pair(one, v, 1);
    assert(Seq::<u8>::empty() + seq![v, 255u8] =~= one);
    assert(one + seq![v, 1u8] =~= two);
    assert(decode_spec(Seq::<u8>::empty()) == Seq::<u8>::empty());
    assert(Seq::<u8>::empty() + repeat(v, 255) =~= repeat(v, 255));
    assert(repeat(v, 255) + repeat(v, 1) =~= repeat(v, 256));
    lemma_encoding_of(repeat(v, 255), one);
    lemma_encoding_of(repeat(v, 256), two);
}

/// A single byte becomes the one pair `(v, 1)`, which decodes back to it.
pub proof fn lemma_single_byte(v: u8)
    ensures
        encoding_of(seq![v]) == seq![v, 1u8],
        decode_spec(seq![v, 1u8]) == seq![v],
{
    let e = seq![v, 1u8];
    lemma_canonical_push(Seq::<u8>::empty(), v, 1);
    lemma_decode_push_pair(Seq::<u8>::empty(), v, 1);
    assert(Seq::<u8>::empty() + seq![v, 1u8] =~= e);
    assert(decode_spec(Seq::<u8>::empty()) == Seq::<u8>::empty());
    assert(Seq::<u8>::empty() + repeat(v, 1) =~= seq![v]);
    lemma_encoding_of(seq![v], e);
}

/// Which way a stream is transformed.
#[derive(Debug, Clone, Copy, PartialEq, Eq, Structural)]
pub enum Mode {
    Encode,
    Decode,
}

/// Applies the transform that `mode` selects. Encoding always succeeds;
/// decoding fails exactly on a stream of odd length.
pub fn transform(mode: Mode, bytes: &[u8]) -> (r: Result<Vec<u8>, DecodeError>)
    ensures
        mode == Mode::Encode ==> (r matches Ok(e) && e@ == encoding_of(bytes@)),
        mode == Mode::Decode ==> {
            &&& r is Err <==> bytes@.len() % 2 == 1
            &&& r matches Err(e) ==> e == DecodeError::MalformedInput
            &&& r matches Ok(d) ==> d@ == decode_spec(bytes@)
        },
{
    match mode {
        Mode::Encode => Ok(encode(bytes)),
        Mode::Decode => decode(bytes),
    }
}

} // verus!
