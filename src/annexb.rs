//! H.264 bitstream conversion: length-prefixed NAL units (AVCC) to
//! start-code-delimited NAL units (Annex-B).

use vstd::prelude::*;

verus! {

/// The unsigned big-endian value of the `len` bytes of `d` from `i`.
pub open spec fn be_uint(d: Seq<u8>, i: int, len: int) -> int
    decreases len,
{
    if len <= 0 {
        0
    } else {
        be_uint(d, i, len - 1) * 256 + d[i + len - 1] as int
    }
}

/// The NAL unit bodies of an AVCC sample whose lengths take `l` bytes, read
/// until fewer than `l` bytes remain or a length runs past the end.
pub open spec fn nals_of(d: Seq<u8>, l: int) -> Seq<Seq<u8>>
    decreases d.len(),
{
    if l < 1 || l > 4 || d.len() < l {
        Seq::empty()
    } else {
        let n = be_uint(d, 0, l);
        if n < 0 || l + n > d.len() {
            Seq::empty()
        } else {
            seq![d.subrange(l, l + n)] + nals_of(d.subrange(l + n, d.len() as int), l)
        }
    }
}

/// The start code that precedes each NAL unit in Annex-B.
pub open spec fn start_code() -> Seq<u8> {
    seq![0u8, 0u8, 0u8, 1u8]
}

/// NAL unit bodies laid out in Annex-B: each after a start code.
pub open spec fn frame_nals(ns: Seq<Seq<u8>>) -> Seq<u8>
    decreases ns.len(),
{
    if ns.len() == 0 {
        Seq::empty()
    } else {
        start_code() + ns[0] + frame_nals(ns.drop_first())
    }
}

/// The Annex-B form of the AVCC sample `d` with `l`-byte lengths.
pub open spec fn annexb_of(d: Seq<u8>, l: int) -> Seq<u8> {
    frame_nals(nals_of(d, l))
}

/// The total length of NAL bodies, each with its start code.
pub open spec fn framed_len(ns: Seq<Seq<u8>>) -> int
    decreases ns.len(),
{
    if ns.len() == 0 {
        0
    } else {
        ns[0].len() + 4 + framed_len(ns.drop_first())
    }
}

/// The Annex-B form of NAL bodies `n_i` is `Σ (n_i + 4)` bytes long, and reading
/// it back record by record (start code, then body) yields the bodies again.
pub proof fn lemma_annexb_layout(ns: Seq<Seq<u8>>)
    ensures
        frame_nals(ns).len() == framed_len(ns),
        ns.len() > 0 ==> frame_nals(ns).subrange(0, 4) == start_code(),
        ns.len() > 0 ==> frame_nals(ns).subrange(4, 4 + ns[0].len() as int) == ns[0],
        ns.len() > 0 ==> frame_nals(ns).subrange(4 + ns[0].len() as int, frame_nals(ns).len() as int)
            == frame_nals(ns.drop_first()),
    decreases ns.len(),
{
    if ns.len() > 0 {
        lemma_annexb_layout(ns.drop_first());
        let f = frame_nals(ns);
        assert(f == start_code() + ns[0] + frame_nals(ns.drop_first()));
        assert(f.subrange(0, 4) =~= start_code());
        assert(f.subrange(4, 4 + ns[0].len() as int) =~= ns[0]);
        assert(f.subrange(4 + ns[0].len() as int, f.len() as int) =~= frame_nals(ns.drop_first()));
    }
}

/// The value bound of an unsigned integer of `k` bytes.
pub open spec fn byte_bound(k: int) -> int {
    if k <= 0 {
        0
    } else if k == 1 {
        255
    } else if k == 2 {
        65535
    } else if k == 3 {
        16777215
    } else {
        4294967295
    }
}

/// Reads the `len`-byte big-endian length at `d[i..]`.
fn read_length(d: &[u8], i: usize, len: usize) -> (r: u64)
    requires
        1 <= len <= 4,
        i + len <= d@.len(),
    ensures
        r as int == be_uint(d@, i as int, len as int),
        r <= 4294967295,
{
    let dl = d.len();
    let mut n: u64 = 0;
    let mut k: usize = 0;
    while k < len
        invariant
            dl == d@.len(),
            k <= len <= 4,
            i + len <= d@.len(),
            n as int == be_uint(d@, i as int, k as int),
            n <= byte_bound(k as int),
        decreases len - k,
    {
        n = n * 256 + d[i + k] as u64;
        k = k + 1;
    }
    n
}

/// Converts an AVCC sample with `l`-byte lengths to Annex-B.
pub fn avcc_to_annexb(data: &[u8], l: u8) -> (r: Vec<u8>)
    ensures
        r@ == annexb_of(data@, l as int),
{
    let len = data.len();
    let ln = l as usize;
    let mut result: Vec<u8> = Vec::new();
    let mut offset: usize = 0;
    if ln < 1 || ln > 4 {
        return result;
    }
    assert(data@.subrange(0, len as int) =~= data@);
    while ln <= len - offset
        invariant
            len == data@.len(),
            1 <= ln <= 4,
            ln == l,
            offset <= len,
            result@ + annexb_of(data@.subrange(offset as int, len as int), l as int) == annexb_of(
                data@,
                l as int,
            ),
        decreases len - offset,
    {
        let ghost rest = data@.subrange(offset as int, len as int);
        let n = read_length(data, offset, ln);
        assert(be_uint(rest, 0, ln as int) == be_uint(data@, offset as int, ln as int)) by {
            lemma_be_uint_shift(data@, offset as int, ln as int);
        }
        if n > (len - offset - ln) as u64 {
            assert(annexb_of(rest, l as int) =~= Seq::<u8>::empty());
            assert(result@ + Seq::<u8>::empty() =~= result@);
            return result;
        }
        let body_start = offset + ln;
        let body_end = body_start + n as usize;
        let ghost before = result@;
        result.push(0);
        result.push(0);
        result.push(0);
        result.push(1);
        let mut k: usize = body_start;
        while k < body_end
            invariant
                body_start <= k <= body_end <= len,
                len == data@.len(),
                result@ == before + start_code() + data@.subrange(body_start as int, k as int),
            decreases body_end - k,
        {
            result.push(data[k]);
            k = k + 1;
            assert(result@ =~= before + start_code() + data@.subrange(body_start as int, k as int));
        }
        proof {
            let body = rest.subrange(ln as int, ln + n);
            assert(body =~= data@.subrange(body_start as int, body_end as int));
            assert(rest.subrange(ln + n, rest.len() as int) =~= data@.subrange(
                body_end as int,
                len as int,
            ));
            let tail = nals_of(data@.subrange(body_end as int, len as int), l as int);
            assert(nals_of(rest, l as int) == seq![body] + tail);
            assert((seq![body] + tail).drop_first() =~= tail);
            assert(annexb_of(rest, l as int) == start_code() + body + frame_nals(tail));
            assert(before + (start_code() + body + frame_nals(tail)) =~= before + start_code()
                + body + frame_nals(tail));
        }
        offset = body_end;
    }
    proof {
        let rest = data@.subrange(offset as int, len as int);
        assert(annexb_of(rest, l as int) =~= Seq::<u8>::empty());
        assert(result@ + Seq::<u8>::empty() =~= result@);
    }
    result
}

/// Reading from a subrange reads the same bytes.
proof fn lemma_be_uint_shift(d: Seq<u8>, i: int, len: int)
    requires
        0 <= i,
        0 <= len,
        i + len <= d.len(),
    ensures
        be_uint(d.subrange(i, d.len() as int), 0, len) == be_uint(d, i, len),
    decreases len,
{
    if len > 0 {
        lemma_be_uint_shift(d, i, len - 1);
    }
}

/// Framing one more body appends it, after a start code.
pub proof fn lemma_frame_push(ns: Seq<Seq<u8>>, x: Seq<u8>)
    ensures
        frame_nals(ns.push(x)) == frame_nals(ns) + start_code() + x,
    decreases ns.len(),
{
    if ns.len() == 0 {
        let one = ns.push(x);
        assert(one.drop_first() =~= Seq::<Seq<u8>>::empty());
        assert(one[0] == x);
        assert(frame_nals(one.drop_first()) == Seq::<u8>::empty());
        assert(frame_nals(one) == start_code() + x + Seq::<u8>::empty());
        assert(frame_nals(one) =~= frame_nals(ns) + start_code() + x);
    } else {
        assert(ns.push(x).drop_first() =~= ns.drop_first().push(x));
        lemma_frame_push(ns.drop_first(), x);
        assert(frame_nals(ns.push(x)) =~= frame_nals(ns) + start_code() + x);
    }
}

/// `count` units of `d` from `i`, each after a two-byte big-endian length:
/// their bodies and the position after them, or `None` when one runs past the end.
pub open spec fn units(d: Seq<u8>, i: int, count: int) -> Option<(Seq<Seq<u8>>, int)>
    decreases count,
{
    if count <= 0 {
        Some((Seq::empty(), i))
    } else {
        match units(d, i, count - 1) {
            None => None,
            Some((us, j)) => if j + 2 > d.len() {
                None
            } else {
                let n = d[j] as int * 256 + d[j + 1] as int;
                if j + 2 + n > d.len() {
                    None
                } else {
                    Some((us.push(d.subrange(j + 2, j + 2 + n)), j + 2 + n))
                }
            },
        }
    }
}

/// The sequence and picture parameter sets of an `avcC` record, in order.
pub open spec fn parameter_sets(a: Seq<u8>) -> Option<Seq<Seq<u8>>> {
    if a.len() < 6 {
        None
    } else {
        match units(a, 6, (a[5] & 31u8) as int) {
            None => None,
            Some((sps, j)) => if j + 1 > a.len() {
                None
            } else {
                match units(a, j + 1, a[j] as int) {
                    None => None,
                    Some((pps, _)) => Some(sps + pps),
                }
            },
        }
    }
}

/// Reads `count` length-prefixed units from `i`, appending each to `out`
/// after a start code; the position after them.
fn read_units(a: &[u8], i: usize, count: u8, out: &mut Vec<u8>, Ghost(before): Ghost<Seq<Seq<u8>>>) -> (r: Option<usize>)
    requires
        i <= a@.len(),
        old(out)@ == frame_nals(before),
    ensures
        match r {
            Some(j) => units(a@, i as int, count as int) matches Some((us, k)) && k == j
                && final(out)@ == frame_nals(before + us),
            None => units(a@, i as int, count as int) is None,
        },
{
    let len = a.len();
    let mut j: usize = i;
    let mut k: u8 = 0;
    let ghost mut us: Seq<Seq<u8>> = Seq::empty();
    assert(before + us =~= before);
    while k < count
        invariant
            len == a@.len(),
            i <= j <= len,
            k <= count,
            units(a@, i as int, k as int) == Some((us, j as int)),
            out@ == frame_nals(before + us),
        decreases count - k,
    {
        if len - j < 2 {
            proof {
                lemma_units_none_stays(a@, i as int, k as int + 1, count as int);
            }
            return None;
        }
        let n = a[j] as usize * 256 + a[j + 1] as usize;
        if n > len - j - 2 {
            proof {
                lemma_units_none_stays(a@, i as int, k as int + 1, count as int);
            }
            return None;
        }
        let ghost body = a@.subrange(j + 2, j + 2 + n);
        proof {
            lemma_frame_push(before + us, body);
        }
        out.push(0);
        out.push(0);
        out.push(0);
        out.push(1);
        let mut p: usize = j + 2;
        let ghost start = out@;
        while p < j + 2 + n
            invariant
                j + 2 <= p <= j + 2 + n <= len,
                len == a@.len(),
                out@ == start + a@.subrange(j + 2, p as int),
            decreases j + 2 + n - p,
        {
            out.push(a[p]);
            p = p + 1;
            assert(out@ =~= start + a@.subrange(j + 2, p as int));
        }
        proof {
            assert(out@ =~= frame_nals(before + us) + start_code() + body);
            assert((before + us).push(body) =~= before + us.push(body));
            us = us.push(body);
        }
        j = j + 2 + n;
        k = k + 1;
    }
    Some(j)
}

/// A failure to read some units stays a failure with more of them.
proof fn lemma_units_none_stays(d: Seq<u8>, i: int, k: int, count: int)
    requires
        0 <= k <= count,
        units(d, i, k) is None,
    ensures
        units(d, i, count) is None,
    decreases count - k,
{
    if k < count {
        lemma_units_none_stays(d, i, k + 1, count);
    }
}

/// The parameter sets of an `avcC` record in Annex-B, to hand the decoder
/// before the first picture; `None` when the record is cut short.
pub fn avcc_parameter_sets(a: &[u8]) -> (r: Option<Vec<u8>>)
    ensures
        match r {
            Some(v) => parameter_sets(a@) matches Some(ps) && v@ == frame_nals(ps),
            None => parameter_sets(a@) is None,
        },
{
    if a.len() < 6 {
        return None;
    }
    let mut out: Vec<u8> = Vec::new();
    assert(out@ =~= frame_nals(Seq::<Seq<u8>>::empty()));
    let ghost sps_units = units(a@, 6, (a@[5] & 31u8) as int);
    let j = match read_units(a, 6, a[5] & 31, &mut out, Ghost(Seq::empty())) {
        Some(j) => j,
        None => return None,
    };
    if j >= a.len() {
        return None;
    }
    let ghost sps = match sps_units {
        Some((s, _)) => s,
        None => Seq::empty(),
    };
    assert(Seq::<Seq<u8>>::empty() + sps =~= sps);
    match read_units(a, j + 1, a[j], &mut out, Ghost(sps)) {
        Some(_) => Some(out),
        None => None,
    }
}

/// `s` holds a start code at `k`.
pub open spec fn code_at(s: Seq<u8>, k: int) -> bool {
    0 <= k && k + 4 <= s.len() && s[k] == 0 && s[k + 1] == 0 && s[k + 2] == 0 && s[k + 3] == 1
}

/// `b` holds no start code.
pub open spec fn code_free(b: Seq<u8>) -> bool {
    forall|k: int| !#[trigger] code_at(b, k)
}

/// Where the first start code of `s` begins, or the length of `s` without one.
pub open spec fn next_code(s: Seq<u8>) -> int
    decreases s.len(),
{
    if s.len() < 4 {
        s.len() as int
    } else if code_at(s, 0) {
        0
    } else {
        1 + next_code(s.drop_first())
    }
}

/// The bodies of an Annex-B stream: what follows each start code, up to the next.
pub open spec fn split_at_codes(s: Seq<u8>) -> Seq<Seq<u8>>
    decreases s.len(),
{
    if !code_at(s, 0) {
        Seq::empty()
    } else {
        let rest = s.subrange(4, s.len() as int);
        let e = next_code(rest);
        if e < 0 || e > rest.len() {
            Seq::empty()
        } else {
            seq![rest.subrange(0, e)] + split_at_codes(rest.subrange(e, rest.len() as int))
        }
    }
}

/// A body without start codes, followed by nothing or by a start code, runs
/// up to that start code.
proof fn lemma_next_code_after_body(b: Seq<u8>, t: Seq<u8>)
    requires
        code_free(b),
        t.len() == 0 || code_at(t, 0),
    ensures
        next_code(b + t) == b.len(),
    decreases b.len(),
{
    let s = b + t;
    if b.len() == 0 {
        assert(s =~= t);
    } else if s.len() < 4 {
        assert(t.len() == 0);
    } else {
        assert(!code_at(s, 0)) by {
            if b.len() >= 4 {
                assert(!code_at(b, 0));
            } else {
                assert(s[3] == t[3 - b.len()]);
            }
        }
        let b2 = b.drop_first();
        assert forall|k: int| !#[trigger] code_at(b2, k) by {
            assert(!code_at(b, k + 1));
            if code_at(b2, k) {
                assert(b2[k] == b[k + 1] && b2[k + 1] == b[k + 2] && b2[k + 2] == b[k + 3] && b2[k + 3] == b[k + 4]);
            }
        }
        assert(s.drop_first() =~= b2 + t);
        lemma_next_code_after_body(b2, t);
    }
}

/// Splitting the Annex-B form of NAL bodies at its start codes gives the
/// bodies back, when no body holds a start code (as emulation prevention
/// keeps it in H.264).
pub proof fn lemma_annexb_round_trip(ns: Seq<Seq<u8>>)
    requires
        forall|i: int| 0 <= i < ns.len() ==> code_free(#[trigger] ns[i]),
    ensures
        split_at_codes(frame_nals(ns)) == ns,
    decreases ns.len(),
{
    let f = frame_nals(ns);
    if ns.len() == 0 {
        assert(!code_at(f, 0));
        assert(split_at_codes(f) =~= ns);
    } else {
        let tail = ns.drop_first();
        let ft = frame_nals(tail);
        assert(f == start_code() + ns[0] + ft);
        assert(code_at(f, 0));
        let rest = f.subrange(4, f.len() as int);
        assert(rest =~= ns[0] + ft);
        lemma_annexb_layout(tail);
        assert(ft.len() == 0 || code_at(ft, 0)) by {
            if tail.len() > 0 {
                assert(ft.subrange(0, 4) == start_code());
                assert(ft[0] == ft.subrange(0, 4)[0]);
                assert(ft[1] == ft.subrange(0, 4)[1]);
                assert(ft[2] == ft.subrange(0, 4)[2]);
                assert(ft[3] == ft.subrange(0, 4)[3]);
            } else {
                assert(ft.len() == 0);
            }
        }
        lemma_next_code_after_body(ns[0], ft);
        assert(rest.subrange(0, ns[0].len() as int) =~= ns[0]);
        assert(rest.subrange(ns[0].len() as int, rest.len() as int) =~= ft);
        lemma_annexb_round_trip(tail);
        assert(seq![ns[0]] + tail =~= ns);
    }
}

} // verus!
