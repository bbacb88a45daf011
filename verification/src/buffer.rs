use vstd::prelude::*;

verus! {

/// Whether inserting `n` bytes into a window of `len` bytes, with the
/// cursor at `pos`, inside a slice of `buf_len` bytes stays within bounds.
///
/// A cursor at or below the window end inside the slice is always fine as
/// long as the window is not empty; any other cursor only moves forward and
/// must not run past the slice.
pub open spec fn insert_fits(buf_len: int, len: int, pos: int, n: int) -> bool {
    n == 0 || (if pos <= len && len <= buf_len {
        len > 0
    } else {
        pos + n <= buf_len
    })
}

/// The buffer and the cursor after inserting `ins` at `pos` into a window of
/// `len` bytes.
///
/// The bytes are written at the cursor.  While everything fits before the
/// window end, the rest of the buffer is untouched.  Once the window is
/// full, it keeps the last `len` bytes of what was before the cursor
/// followed by the inserted bytes, and the cursor stays at the window end.
/// A cursor already beyond the window end just writes forward.
pub open spec fn inserted(buf: Seq<u8>, len: int, pos: int, ins: Seq<u8>) -> (Seq<u8>, int) {
    let k = pos + ins.len();
    if ins.len() == 0 {
        (buf, pos)
    } else if pos > len || k <= len {
        (buf.take(pos) + ins + buf.skip(k), k)
    } else {
        ((buf.take(pos) + ins).subrange(k - len, k) + buf.skip(len), len)
    }
}

/// One byte inserted at the cursor: a full window first drops its oldest
/// byte.
pub open spec fn insert_one(state: (Seq<u8>, int), len: int, c: u8) -> (Seq<u8>, int) {
    let (b, p) = state;
    if p == len {
        (b.subrange(1, len) + seq![c] + b.skip(len), len)
    } else {
        (b.update(p, c), p + 1)
    }
}

proof fn lemma_inserted_step(buf: Seq<u8>, len: int, pos: int, ins: Seq<u8>, c: u8)
    requires
        0 <= pos,
        0 <= len,
        insert_fits(buf.len() as int, len, pos, ins.len() + 1 as int),
    ensures
        inserted(buf, len, pos, ins.push(c)) == insert_one(inserted(buf, len, pos, ins), len, c),
        inserted(buf, len, pos, ins).0.len() == buf.len(),
{
    let k = pos + ins.len();
    let t = buf.take(pos) + ins;
    let (b, p) = inserted(buf, len, pos, ins);
    if ins.len() == 0 {
        assert(buf.take(pos) + ins + buf.skip(pos) =~= buf);
    }
    if pos > len || k + 1 <= len {
        assert(b =~= t + buf.skip(k));
        assert(inserted(buf, len, pos, ins.push(c)).0 =~= b.update(k, c));
    } else if k == len {
        assert(b =~= t + buf.skip(len));
        assert(inserted(buf, len, pos, ins.push(c)).0 =~= b.subrange(1, len) + seq![c] + b.skip(len));
    } else {
        assert(b.subrange(1, len) =~= t.subrange(k - len + 1, k));
        assert(b.skip(len) =~= buf.skip(len));
        assert(inserted(buf, len, pos, ins.push(c)).0 =~= b.subrange(1, len) + seq![c] + b.skip(len));
    }
}

/// The last `cap` elements of `s`, or all of `s` when it is shorter.
pub open spec fn keep_last(s: Seq<u8>, cap: int) -> Seq<u8> {
    if s.len() <= cap {
        s
    } else {
        s.skip(s.len() - cap)
    }
}

/// Inserting into a window keeps in it the most recent bytes: what was in
/// the window followed by the inserted bytes, cut to the window's size from
/// the front.  The buffer keeps its length, and the bytes past the window
/// stay as they were.
pub proof fn lemma_insert_keeps_latest(buf: Seq<u8>, len: int, pos: int, ins: Seq<u8>)
    requires
        0 <= pos <= len <= buf.len(),
        len > 0 || ins.len() == 0,
    ensures
        inserted(buf, len, pos, ins).0.len() == buf.len(),
        inserted(buf, len, pos, ins).1 == if pos + ins.len() <= len { pos + ins.len() } else { len },
        inserted(buf, len, pos, ins).0.take(inserted(buf, len, pos, ins).1) == keep_last(
            buf.take(pos) + ins,
            len,
        ),
        inserted(buf, len, pos, ins).0.skip(len) == buf.skip(len),
{
    let (b, p) = inserted(buf, len, pos, ins);
    let t = buf.take(pos) + ins;
    let k = pos + ins.len();
    if ins.len() == 0 {
        assert(t =~= buf.take(pos));
    } else if k <= len {
        assert(b.take(p) =~= t);
        assert(b.skip(len) =~= buf.skip(len));
    } else {
        assert(b.take(p) =~= t.skip(k - len));
        assert(b.skip(len) =~= buf.skip(len));
    }
}

/// Two inserts into a window leave the same buffer and cursor as one
/// insert of the bytes of both, one after the other.
pub proof fn lemma_insert_twice(buf: Seq<u8>, len: int, pos: int, x: Seq<u8>, y: Seq<u8>)
    requires
        1 <= len <= buf.len(),
        0 <= pos <= len,
    ensures
        inserted(inserted(buf, len, pos, x).0, len, inserted(buf, len, pos, x).1, y) == inserted(
            buf,
            len,
            pos,
            x + y,
        ),
    decreases y.len(),
{
    lemma_insert_keeps_latest(buf, len, pos, x);
    let (b1, p1) = inserted(buf, len, pos, x);
    if y.len() == 0 {
        assert(x + y =~= x);
        assert(b1.take(p1) + y + b1.skip(p1) =~= b1);
    } else {
        let yp = y.drop_last();
        let c = y.last();
        lemma_insert_twice(buf, len, pos, x, yp);
        lemma_inserted_step(b1, len, p1, yp, c);
        lemma_inserted_step(buf, len, pos, x + yp, c);
        assert(yp.push(c) =~= y);
        assert((x + yp).push(c) =~= x + y);
    }
}

/// Appends the first `num_bytes` bytes of `insert_bytes` to the window
/// `buffer[..buffer_len]` at the cursor `*buffer_pos`; when the window is
/// full, its content moves one place to the front for each new byte, so
/// that it keeps the most recent bytes.
pub fn insert_in_buffer(
    buffer: &mut [u8],
    buffer_len: usize,
    buffer_pos: &mut usize,
    insert_bytes: &[u8],
    num_bytes: usize,
)
    requires
        num_bytes <= insert_bytes@.len(),
        insert_fits(old(buffer)@.len() as int, buffer_len as int, *old(buffer_pos) as int, num_bytes as int),
    ensures
        (final(buffer)@, *final(buffer_pos) as int) == inserted(
            old(buffer)@,
            buffer_len as int,
            *old(buffer_pos) as int,
            insert_bytes@.take(num_bytes as int),
        ),
{
    let ghost buf0 = buffer@;
    let ghost pos0 = *buffer_pos as int;
    for insert_pos in 0..num_bytes
        invariant
            num_bytes <= insert_bytes@.len(),
            0 <= pos0,
            insert_fits(buf0.len() as int, buffer_len as int, pos0, num_bytes as int),
            buffer@.len() == buf0.len(),
            (buffer@, *buffer_pos as int) == inserted(buf0, buffer_len as int, pos0, insert_bytes@.take(insert_pos as int)),
    {
        let ghost ins = insert_bytes@.take(insert_pos as int);
        let insert_char = insert_bytes[insert_pos];
        proof {
            lemma_inserted_step(buf0, buffer_len as int, pos0, ins, insert_char);
            assert(ins.push(insert_char) =~= insert_bytes@.take(insert_pos + 1));
        }
        if *buffer_pos == buffer_len {
            let ghost before = buffer@;
            for i in 1..buffer_len
                invariant
                    buffer_len <= buffer@.len(),
                    buffer@.len() == before.len(),
                    forall|j: int| 0 <= j < i - 1 ==> buffer@[j] == before[j + 1],
                    forall|j: int| i - 1 <= j < buffer@.len() ==> buffer@[j] == before[j],
            {
                buffer[i - 1] = buffer[i];
            }
            *buffer_pos = *buffer_pos - 1;
            proof {
                assert(buffer@.subrange(0, buffer_len - 1) =~= before.subrange(1, buffer_len as int));
            }
            buffer[*buffer_pos] = insert_char;
            *buffer_pos = *buffer_pos + 1;
            proof {
                assert(buffer@ =~= before.subrange(1, buffer_len as int) + seq![insert_char] + before.skip(buffer_len as int));
            }
        } else {
            buffer[*buffer_pos] = insert_char;
            *buffer_pos = *buffer_pos + 1;
        }
    }
}

/// The index of the last positive byte of `s`, or -1 when there is none.
pub open spec fn last_positive(s: Seq<u8>) -> int
    decreases s.len(),
{
    if s.len() == 0 {
        -1
    } else if s.last() > 0 {
        s.len() - 1
    } else {
        last_positive(s.drop_last())
    }
}

proof fn lemma_last_positive_bounds(s: Seq<u8>)
    ensures
        -1 <= last_positive(s) < s.len(),
        last_positive(s) >= 0 ==> s[last_positive(s)] > 0,
        forall|j: int| last_positive(s) < j < s.len() ==> s[j] == 0,
    decreases s.len(),
{
    if s.len() > 0 && s.last() == 0 {
        let p = s.drop_last();
        lemma_last_positive_bounds(p);
        assert forall|j: int| last_positive(s) < j < s.len() implies s[j] == 0 by {
            if j < s.len() - 1 {
                assert(p[j] == s[j]);
            }
        }
    }
}

/// `n` zero bytes.
pub open spec fn zeros(n: nat) -> Seq<u8> {
    Seq::new(n, |i: int| 0u8)
}

/// `s` with its last positive byte and everything after it set to zero;
/// `s` itself when it holds no positive byte.
pub open spec fn clear_last_positive(s: Seq<u8>) -> Seq<u8> {
    if last_positive(s) < 0 {
        s
    } else {
        s.take(last_positive(s)) + zeros((s.len() - last_positive(s)) as nat)
    }
}

/// `s` after `m` rounds of [`clear_last_positive`].
pub open spec fn clear_repeatedly(s: Seq<u8>, m: nat) -> Seq<u8>
    decreases m,
{
    if m == 0 {
        s
    } else {
        clear_repeatedly(clear_last_positive(s), (m - 1) as nat)
    }
}

/// The number of positive bytes of `s`.
pub open spec fn count_positive(s: Seq<u8>) -> nat
    decreases s.len(),
{
    if s.len() == 0 {
        0
    } else {
        count_positive(s.drop_last()) + if s.last() > 0 { 1nat } else { 0nat }
    }
}

proof fn lemma_count_positive_zeros(p: Seq<u8>, n: nat)
    ensures
        count_positive(p + zeros(n)) == count_positive(p),
    decreases n,
{
    if n > 0 {
        let m = (n - 1) as nat;
        assert((p + zeros(n)).drop_last() =~= p + zeros(m));
        lemma_count_positive_zeros(p, m);
    } else {
        assert(p + zeros(n) =~= p);
    }
}

/// Clearing from the last positive byte removes exactly one positive byte,
/// and an array with none is all zeros and stays as it is.
proof fn lemma_clear_last_positive_count(s: Seq<u8>)
    ensures
        s.len() == clear_last_positive(s).len(),
        last_positive(s) >= 0 ==> count_positive(clear_last_positive(s)) + 1 == count_positive(s),
        last_positive(s) < 0 ==> s == zeros(s.len()) && clear_last_positive(s) == s && count_positive(s) == 0,
{
    lemma_last_positive_bounds(s);
    let k = last_positive(s);
    if k < 0 {
        assert(s =~= zeros(s.len()));
        lemma_count_positive_zeros(Seq::<u8>::empty(), s.len());
        assert(Seq::<u8>::empty() + zeros(s.len()) =~= s);
    } else {
        let t = s.take(k);
        let rest = (s.len() - k - 1) as nat;
        lemma_count_positive_zeros(t, (s.len() - k) as nat);
        assert(s =~= t.push(s[k]) + zeros(rest));
        lemma_count_positive_zeros(t.push(s[k]), rest);
        assert(t.push(s[k]).drop_last() =~= t);
    }
}

/// Clearing from the last positive byte at least as many times as there
/// are positive bytes leaves only zeros.
pub proof fn lemma_repeated_clearing_zeroes(s: Seq<u8>, m: nat)
    requires
        m >= count_positive(s),
    ensures
        clear_repeatedly(s, m) == zeros(s.len()),
    decreases m,
{
    lemma_clear_last_positive_count(s);
    if m == 0 {
        if last_positive(s) >= 0 {
            assert(false);
        }
    } else {
        let t = clear_last_positive(s);
        lemma_repeated_clearing_zeroes(t, (m - 1) as nat);
    }
}

/// Clears the array from its last non-zero byte to the end, which drops
/// the last character of a zero-padded line; an array of zeros stays as it
/// is.
pub fn replace_last_element_greater_than_zero(array: &mut [u8; 256])
    ensures
        last_positive(old(array)@) < 0 ==> final(array)@ == old(array)@,
        last_positive(old(array)@) >= 0 ==> final(array)@ == old(array)@.take(last_positive(old(array)@))
            + Seq::new((256 - last_positive(old(array)@)) as nat, |i: int| 0u8),
        final(array)@ == clear_last_positive(old(array)@),
{
    let ghost a0 = array@;
    let mut i: usize = 256;
    let mut found = false;
    assert(a0.take(256) =~= a0);
    while i > 0
        invariant_except_break
            !found,
        invariant
            i <= 256,
            array@ == a0,
            a0.len() == 256,
            last_positive(a0) == last_positive(a0.take(i as int)),
        ensures
            i <= 256,
            array@ == a0,
            last_positive(a0) == last_positive(a0.take(i as int)),
            found ==> i > 0 && a0[i - 1] > 0,
            !found ==> i == 0,
        decreases i,
    {
        if array[i - 1] > 0 {
            found = true;
            break;
        }
        proof {
            assert(a0.take(i as int).drop_last() =~= a0.take(i - 1));
        }
        i = i - 1;
    }
    proof {
        lemma_last_positive_bounds(a0);
        if found {
            assert(a0.take(i as int).last() == a0[i - 1]);
        } else {
            assert(a0.take(0) =~= Seq::<u8>::empty());
        }
    }
    if found {
        let index = i - 1;
        for j in index..256
            invariant
                array@.len() == 256,
                forall|m: int| 0 <= m < index ==> array@[m] == a0[m],
                forall|m: int| index <= m < j ==> array@[m] == 0,
        {
            array[j] = 0;
        }
        assert(array@ =~= a0.take(index as int) + Seq::new((256 - index) as nat, |m: int| 0u8));
    } else {
        assert(array@ == a0);
    }
}

} // verus!
