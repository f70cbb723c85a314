//! Splitting a path into segments and joining them back.
//!
//! Paths are handled at the byte level: backslashes are first replaced by
//! the separator `/`, the bytes are split on `/`, each segment is encoded or
//! decoded independently, and the results are joined with `/` again.
//! [`lemma_join_split`] and [`lemma_split_join`] prove that the two
//! directions invert each other, which carries segment count and order
//! through a full path round trip.

use vstd::prelude::*;

use crate::text::is_b58_byte;

verus! {

/// Every occurrence of `from` replaced by `to`.
pub open spec fn replace_bytes(b: Seq<u8>, from: u8, to: u8) -> Seq<u8> {
    Seq::new(b.len(), |i: int| if b[i] == from { to } else { b[i] })
}

/// Replaces every occurrence of `from` by `to`.
pub fn replace_byte(v: &[u8], from: u8, to: u8) -> (r: Vec<u8>)
    ensures
        r@ == replace_bytes(v@, from, to),
{
    let mut out: Vec<u8> = Vec::new();
    let vlen = v.len();
    let mut i: usize = 0;
    while i < vlen
        invariant
            i <= vlen,
            vlen == v@.len(),
            out@ =~= replace_bytes(v@.take(i as int), from, to),
        decreases vlen - i,
    {
        let b = v[i];
        if b == from {
            out.push(to);
        } else {
            out.push(b);
        }
        proof {
            assert(out@ =~= replace_bytes(v@.take(i + 1), from, to));
        }
        i = i + 1;
    }
    proof {
        assert(v@.take(vlen as int) =~= v@);
    }
    out
}

/// The segments of `b` between occurrences of `sep`: always at least one
/// segment, and one more segment per separator.
pub open spec fn split_bytes(b: Seq<u8>, sep: u8) -> Seq<Seq<u8>>
    decreases b.len(),
{
    if b.len() == 0 {
        seq![Seq::<u8>::empty()]
    } else if b[0] == sep {
        seq![Seq::<u8>::empty()] + split_bytes(b.skip(1), sep)
    } else {
        let rest = split_bytes(b.skip(1), sep);
        rest.update(0, seq![b[0]] + rest[0])
    }
}

pub proof fn lemma_split_len_pos(b: Seq<u8>, sep: u8)
    ensures
        split_bytes(b, sep).len() >= 1,
    decreases b.len(),
{
    if b.len() > 0 {
        lemma_split_len_pos(b.skip(1), sep);
    }
}

/// Segments joined with `sep` between them.
pub open spec fn join_bytes(parts: Seq<Seq<u8>>, sep: u8) -> Seq<u8>
    decreases parts.len(),
{
    if parts.len() == 0 {
        Seq::empty()
    } else if parts.len() == 1 {
        parts[0]
    } else {
        parts[0] + seq![sep] + join_bytes(parts.skip(1), sep)
    }
}

/// Joining what splitting produced gives the bytes back.
pub proof fn lemma_join_split(b: Seq<u8>, sep: u8)
    ensures
        join_bytes(split_bytes(b, sep), sep) == b,
    decreases b.len(),
{
    if b.len() == 0 {
    } else if b[0] == sep {
        lemma_join_split(b.skip(1), sep);
        lemma_split_len_pos(b.skip(1), sep);
        let parts = seq![Seq::<u8>::empty()] + split_bytes(b.skip(1), sep);
        assert(parts.skip(1) =~= split_bytes(b.skip(1), sep));
        assert(join_bytes(parts, sep) =~= b);
    } else {
        lemma_join_split(b.skip(1), sep);
        lemma_split_len_pos(b.skip(1), sep);
        let rest = split_bytes(b.skip(1), sep);
        let parts = rest.update(0, seq![b[0]] + rest[0]);
        if rest.len() == 1 {
            assert(join_bytes(rest, sep) == rest[0]);
            assert(parts.len() == 1);
            assert(join_bytes(parts, sep) == parts[0]);
            assert(parts[0] == seq![b[0]] + rest[0]);
            assert(rest[0] == b.skip(1));
            assert(seq![b[0]] + b.skip(1) =~= b);
        } else {
            assert(parts.skip(1) =~= rest.skip(1));
            assert(join_bytes(parts, sep) == parts[0] + seq![sep] + join_bytes(rest.skip(1), sep));
            assert(join_bytes(rest, sep) == rest[0] + seq![sep] + join_bytes(rest.skip(1), sep));
            assert(join_bytes(parts, sep) =~= seq![b[0]] + (rest[0] + seq![sep] + join_bytes(
                rest.skip(1),
                sep,
            )));
            assert(seq![b[0]] + b.skip(1) =~= b);
        }
    }
}

/// A sequence without the separator splits as a single segment.
proof fn lemma_split_sep_free(seg: Seq<u8>, sep: u8)
    requires
        forall|j: int| 0 <= j < seg.len() ==> #[trigger] seg[j] != sep,
    ensures
        split_bytes(seg, sep) == seq![seg],
    decreases seg.len(),
{
    if seg.len() == 0 {
        assert(split_bytes(seg, sep) =~~= seq![seg]);
    } else {
        assert(seg[0] != sep);
        lemma_split_sep_free(seg.skip(1), sep);
        let rest = split_bytes(seg.skip(1), sep);
        assert(rest == seq![seg.skip(1)]);
        assert(seq![seg[0]] + seg.skip(1) =~= seg);
        assert(rest.update(0, seq![seg[0]] + rest[0]) =~~= seq![seg]);
    }
}

/// Splitting consumes one separator-free segment at a time.
proof fn lemma_split_prepend(seg: Seq<u8>, tail: Seq<u8>, sep: u8)
    requires
        forall|j: int| 0 <= j < seg.len() ==> #[trigger] seg[j] != sep,
    ensures
        split_bytes(seg + seq![sep] + tail, sep) == seq![seg] + split_bytes(tail, sep),
    decreases seg.len(),
{
    let b = seg + seq![sep] + tail;
    if seg.len() == 0 {
        assert(b[0] == sep);
        assert(b.skip(1) =~= tail);
        assert(split_bytes(b, sep) =~~= seq![seg] + split_bytes(tail, sep));
    } else {
        assert(b[0] == seg[0] && seg[0] != sep);
        assert(b.skip(1) =~= seg.skip(1) + seq![sep] + tail);
        assert forall|j: int| 0 <= j < seg.skip(1).len() implies #[trigger] seg.skip(1)[j]
            != sep by {
            assert(seg[j + 1] != sep);
        }
        lemma_split_prepend(seg.skip(1), tail, sep);
        let rest = split_bytes(b.skip(1), sep);
        lemma_split_len_pos(tail, sep);
        assert(rest == seq![seg.skip(1)] + split_bytes(tail, sep));
        assert(rest[0] == seg.skip(1));
        assert(seq![b[0]] + seg.skip(1) =~= seg);
        assert(rest.update(0, seq![b[0]] + rest[0]) =~~= seq![seg] + split_bytes(tail, sep));
    }
}

/// Splitting what joining produced gives the segments back, as long as no
/// segment holds the separator.
pub proof fn lemma_split_join(parts: Seq<Seq<u8>>, sep: u8)
    requires
        parts.len() >= 1,
        forall|i: int, j: int|
            0 <= i < parts.len() && 0 <= j < parts[i].len() ==> #[trigger] parts[i][j] != sep,
    ensures
        split_bytes(join_bytes(parts, sep), sep) == parts,
    decreases parts.len(),
{
    if parts.len() == 1 {
        assert forall|j: int| 0 <= j < parts[0].len() implies #[trigger] parts[0][j] != sep by {}
        lemma_split_sep_free(parts[0], sep);
        assert(split_bytes(join_bytes(parts, sep), sep) =~~= parts);
    } else {
        assert forall|j: int| 0 <= j < parts[0].len() implies #[trigger] parts[0][j] != sep by {}
        assert forall|i: int, j: int|
            0 <= i < parts.skip(1).len() && 0 <= j < parts.skip(1)[i].len() implies #[trigger] parts.skip(
            1,
        )[i][j] != sep by {
            assert(parts[i + 1][j] != sep);
        }
        lemma_split_join(parts.skip(1), sep);
        lemma_split_prepend(parts[0], join_bytes(parts.skip(1), sep), sep);
        assert(seq![parts[0]] + parts.skip(1) =~~= parts);
    }
}

/// Every byte of the joined sequence is the separator or comes from a
/// segment; with base-58 segments, everything stays ASCII.
pub proof fn lemma_join_b58_bytes(parts: Seq<Seq<u8>>, sep: u8)
    requires
        forall|i: int, j: int|
            0 <= i < parts.len() && 0 <= j < parts[i].len() ==> is_b58_byte(
                #[trigger] parts[i][j],
            ),
    ensures
        forall|k: int|
            0 <= k < join_bytes(parts, sep).len() ==> (#[trigger] join_bytes(parts, sep)[k] == sep
                || is_b58_byte(join_bytes(parts, sep)[k])),
    decreases parts.len(),
{
    let joined = join_bytes(parts, sep);
    if parts.len() == 0 {
    } else if parts.len() == 1 {
        assert forall|k: int| 0 <= k < joined.len() implies (#[trigger] joined[k] == sep
            || is_b58_byte(joined[k])) by {
            assert(is_b58_byte(parts[0][k]));
        }
    } else {
        assert forall|i: int, j: int|
            0 <= i < parts.skip(1).len() && 0 <= j < parts.skip(1)[i].len() implies is_b58_byte(
            #[trigger] parts.skip(1)[i][j],
        ) by {
            assert(is_b58_byte(parts[i + 1][j]));
        }
        lemma_join_b58_bytes(parts.skip(1), sep);
        let head = parts[0];
        let rest = join_bytes(parts.skip(1), sep);
        assert forall|k: int| 0 <= k < joined.len() implies (#[trigger] joined[k] == sep
            || is_b58_byte(joined[k])) by {
            if k < head.len() {
                assert(is_b58_byte(parts[0][k]));
                assert(joined[k] == head[k]);
            } else if k == head.len() {
                assert(joined[k] == sep);
            } else {
                assert(joined[k] == rest[k - head.len() - 1]);
            }
        }
    }
}

/// Splits `v` on `sep`: at least one piece, one more piece per separator.
pub fn split_on(v: &[u8], sep: u8) -> (r: Vec<Vec<u8>>)
    ensures
        r.deep_view() == split_bytes(v@, sep),
        r@.len() >= 1,
{
    let vlen = v.len();
    let mut parts: Vec<Vec<u8>> = Vec::new();
    let mut cur: Vec<u8> = Vec::new();
    proof {
        assert(v@.skip(0) =~= v@);
        lemma_split_len_pos(v@, sep);
        let s0 = split_bytes(v@, sep);
        assert(cur@ + s0[0] =~= s0[0]);
        assert(parts.deep_view() =~~= Seq::<Seq<u8>>::empty());
        assert(parts.deep_view() + seq![s0[0]] + s0.skip(1) =~~= s0);
    }
    let mut i: usize = 0;
    while i < vlen
        invariant
            i <= vlen,
            vlen == v@.len(),
            split_bytes(v@.skip(i as int), sep).len() >= 1,
            split_bytes(v@, sep) =~~= parts.deep_view() + seq![
                cur@ + split_bytes(v@.skip(i as int), sep)[0],
            ] + split_bytes(v@.skip(i as int), sep).skip(1),
        decreases vlen - i,
    {
        let b = v[i];
        let ghost suffix = v@.skip(i as int);
        let ghost s2 = split_bytes(v@.skip(i + 1), sep);
        proof {
            assert(suffix[0] == b);
            assert(suffix.skip(1) =~= v@.skip(i + 1));
            lemma_split_len_pos(v@.skip(i + 1), sep);
        }
        if b == sep {
            let ghost old_parts = parts.deep_view();
            let ghost old_cur = cur@;
            parts.push(cur);
            cur = Vec::new();
            proof {
                assert(split_bytes(suffix, sep) == seq![Seq::<u8>::empty()] + s2);
                assert((seq![Seq::<u8>::empty()] + s2)[0] =~= Seq::<u8>::empty());
                assert((seq![Seq::<u8>::empty()] + s2).skip(1) =~= s2);
                assert(old_cur + split_bytes(suffix, sep)[0] =~= old_cur);
                assert(parts.deep_view() =~~= old_parts.push(old_cur));
                assert(seq![s2[0]] + s2.skip(1) =~~= s2);
                assert(cur@ + s2[0] =~= s2[0]);
                assert(old_parts + seq![old_cur] + s2 =~~= parts.deep_view() + seq![cur@ + s2[0]]
                    + s2.skip(1));
            }
        } else {
            let ghost old_cur = cur@;
            cur.push(b);
            proof {
                let rest = s2;
                assert(split_bytes(suffix, sep) == rest.update(0, seq![b] + rest[0]));
                assert(split_bytes(suffix, sep)[0] == seq![b] + rest[0]);
                assert(split_bytes(suffix, sep).skip(1) =~~= rest.skip(1));
                assert(cur@ + rest[0] =~= old_cur + (seq![b] + rest[0]));
            }
        }
        i = i + 1;
    }
    proof {
        assert(v@.skip(vlen as int) =~= Seq::<u8>::empty());
        let s_end = split_bytes(Seq::<u8>::empty(), sep);
        assert(s_end == seq![Seq::<u8>::empty()]);
        assert(cur@ + s_end[0] =~= cur@);
        assert(s_end.skip(1) =~~= Seq::<Seq<u8>>::empty());
    }
    let ghost old_parts = parts.deep_view();
    let ghost old_cur = cur@;
    parts.push(cur);
    proof {
        assert(parts.deep_view() =~~= old_parts.push(old_cur));
        assert(split_bytes(v@, sep) =~~= parts.deep_view());
    }
    parts
}

/// Joins the pieces with `sep` between them.
pub fn join_with(parts: &Vec<Vec<u8>>, sep: u8) -> (r: Vec<u8>)
    requires
        parts@.len() >= 1,
    ensures
        r@ == join_bytes(parts.deep_view(), sep),
{
    let mut out: Vec<u8> = Vec::new();
    let n = parts.len();
    let mut k: usize = 0;
    while k < n
        invariant
            k <= n,
            n == parts@.len(),
            parts.deep_view().len() == n,
            out@ == join_bytes(parts.deep_view().take(k as int), sep),
        decreases n - k,
    {
        if k > 0 {
            out.push(sep);
        }
        out.extend_from_slice(parts[k].as_slice());
        proof {
            let dv = parts.deep_view();
            assert(dv[k as int] == parts@[k as int]@);
            lemma_join_snoc(dv.take(k as int), dv[k as int], sep);
            assert(dv.take(k + 1) =~~= dv.take(k as int).push(dv[k as int]));
        }
        k = k + 1;
    }
    proof {
        assert(parts.deep_view().take(n as int) =~~= parts.deep_view());
    }
    out
}

/// Appending one more segment appends a separator and its bytes.
proof fn lemma_join_snoc(xs: Seq<Seq<u8>>, y: Seq<u8>, sep: u8)
    ensures
        join_bytes(xs.push(y), sep) == if xs.len() == 0 {
            y
        } else {
            join_bytes(xs, sep) + seq![sep] + y
        },
    decreases xs.len(),
{
    if xs.len() == 0 {
        assert(xs.push(y)[0] == y);
    } else if xs.len() == 1 {
        assert(xs.push(y).skip(1) =~~= seq![y]);
        assert((xs.push(y))[0] == xs[0]);
        assert(join_bytes(seq![y], sep) == y);
        assert(join_bytes(xs.push(y), sep) == xs[0] + seq![sep] + y);
        assert(join_bytes(xs, sep) == xs[0]);
    } else {
        assert(xs.push(y).skip(1) =~~= xs.skip(1).push(y));
        lemma_join_snoc(xs.skip(1), y, sep);
        assert(join_bytes(xs.push(y), sep) == xs[0] + seq![sep] + (join_bytes(xs.skip(1), sep)
            + seq![sep] + y));
        assert(join_bytes(xs, sep) + seq![sep] + y =~= xs[0] + seq![sep] + (join_bytes(
            xs.skip(1),
            sep,
        ) + seq![sep] + y));
    }
}

} // verus!
