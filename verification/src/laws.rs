//! Properties of the result pipeline: what overlap resolution, stripping
//! and the alignment filter guarantee of every returned result list.

use vstd::prelude::*;
use crate::arg::is_pow2;
use crate::zstrings::{
    align_filter, aligned_offset, entries_overlap, is_class_byte, is_stripped_byte, merge_seq,
    resolve, resolve_rec, run_len, scan_from, scan_windows, shift_entries, sorted_entries,
    no_overlaps, spec_results, strip_all, strip_bytes, wf_entries, window_entries, MatchEntry,
};

verus! {

/// Stripping never grows a text, keeps only bytes of the original, and
/// removes every strippable byte.
pub proof fn lemma_strip_bytes_props(t: Seq<u8>)
    ensures
        strip_bytes(t).len() <= t.len(),
        forall|i: int|
            0 <= i < strip_bytes(t).len() ==> t.contains(#[trigger] strip_bytes(t)[i])
                && !is_stripped_byte(strip_bytes(t)[i]),
    decreases t.len(),
{
    if t.len() == 0 {
    } else {
        let rest = t.drop_first();
        lemma_strip_bytes_props(rest);
        assert forall|i: int| 0 <= i < strip_bytes(t).len() implies t.contains(
            #[trigger] strip_bytes(t)[i],
        ) && !is_stripped_byte(strip_bytes(t)[i]) by {
            if is_stripped_byte(t[0]) {
                assert(rest.contains(strip_bytes(rest)[i]));
                let w = choose|w: int| 0 <= w < rest.len() && rest[w] == strip_bytes(rest)[i];
                assert(t[w + 1] == rest[w]);
            } else {
                if i == 0 {
                    assert(t.contains(t[0]));
                } else {
                    assert(strip_bytes(t)[i] == strip_bytes(rest)[i - 1]);
                    assert(rest.contains(strip_bytes(rest)[i - 1]));
                    let w = choose|w: int|
                        0 <= w < rest.len() && rest[w] == strip_bytes(rest)[i - 1];
                    assert(t[w + 1] == rest[w]);
                }
            }
        }
    }
}

/// Stripping an already stripped text changes nothing.
pub proof fn lemma_strip_bytes_idempotent(t: Seq<u8>)
    ensures
        strip_bytes(strip_bytes(t)) == strip_bytes(t),
    decreases t.len(),
{
    if t.len() == 0 {
        assert(strip_bytes(t) =~= Seq::<u8>::empty());
    } else {
        let rest = t.drop_first();
        lemma_strip_bytes_idempotent(rest);
        if !is_stripped_byte(t[0]) {
            let st = strip_bytes(t);
            assert(st == seq![t[0]] + strip_bytes(rest));
            assert(st.len() > 0 && st[0] == t[0]);
            assert(st.drop_first() =~= strip_bytes(rest));
            assert(strip_bytes(st) == seq![t[0]] + strip_bytes(strip_bytes(rest)));
            assert(strip_bytes(strip_bytes(t)) =~= strip_bytes(t));
        }
    }
}

/// The overlap walk keeps a sorted selection of its candidates, all past
/// the last accepted entry and overlapping neither it nor one another.
pub proof fn lemma_resolve_rec_props(rest: Seq<MatchEntry>, last: MatchEntry)
    requires
        sorted_entries(rest),
        forall|i: int| 0 <= i < rest.len() ==> last.0 < (#[trigger] rest[i]).0,
    ensures
        forall|i: int|
            0 <= i < resolve_rec(rest, last).len() ==> rest.contains(
                #[trigger] resolve_rec(rest, last)[i],
            ),
        sorted_entries(resolve_rec(rest, last)),
        no_overlaps(resolve_rec(rest, last)),
        forall|i: int|
            0 <= i < resolve_rec(rest, last).len() ==> last.0 < (#[trigger] resolve_rec(
                rest,
                last,
            )[i]).0 && !entries_overlap(last, resolve_rec(rest, last)[i]),
    decreases rest.len(),
{
    if rest.len() == 0 {
    } else {
        let r1 = rest.drop_first();
        assert(sorted_entries(r1) && forall|i: int| 0 <= i < r1.len() ==> rest[0].0 < (
        #[trigger] r1[i]).0) by {
            assert(forall|p: int| 0 <= p < r1.len() ==> r1[p] == rest[p + 1]);
        }
        let out = resolve_rec(rest, last);
        if entries_overlap(rest[0], last) {
            lemma_resolve_rec_props(r1, last);
            assert forall|i: int| 0 <= i < out.len() implies rest.contains(#[trigger] out[i]) by {
                assert(r1.contains(out[i]));
                let w = choose|w: int| 0 <= w < r1.len() && r1[w] == out[i];
                assert(rest[w + 1] == r1[w]);
            }
        } else {
            lemma_resolve_rec_props(r1, rest[0]);
            let out1 = resolve_rec(r1, rest[0]);
            assert(out == seq![rest[0]] + out1);
            // the last accepted entry ends before this one starts, hence
            // before everything accepted later starts
            assert(last.0 + last.1.len() < rest[0].0);
            assert forall|i: int| 0 <= i < out.len() implies rest.contains(#[trigger] out[i])
                && last.0 < out[i].0 && !entries_overlap(last, out[i]) by {
                if i == 0 {
                    assert(rest.contains(rest[0]));
                } else {
                    assert(out[i] == out1[i - 1]);
                    assert(r1.contains(out1[i - 1]));
                    let w = choose|w: int| 0 <= w < r1.len() && r1[w] == out1[i - 1];
                    assert(rest[w + 1] == r1[w]);
                    assert(rest[0].0 < out[i].0);
                }
            }
            assert(sorted_entries(out)) by {
                assert(forall|p: int| 0 < p < out.len() ==> out[p] == out1[p - 1]);
            }
            assert(no_overlaps(out)) by {
                assert(forall|p: int| 0 < p < out.len() ==> out[p] == out1[p - 1]);
                assert forall|p: int, q: int| 0 <= p < q < out.len() implies !entries_overlap(
                    #[trigger] out[p],
                    #[trigger] out[q],
                ) by {
                    if p == 0 {
                        assert(!entries_overlap(rest[0], out1[q - 1]));
                    }
                }
            }
        }
    }
}

/// Overlap resolution of a sorted list: the first entry is kept, every
/// kept entry is one of the candidates, order is kept, and no two kept
/// entries overlap.
pub proof fn lemma_resolve_props(es: Seq<MatchEntry>)
    requires
        sorted_entries(es),
    ensures
        forall|i: int|
            0 <= i < resolve(es).len() ==> es.contains(#[trigger] resolve(es)[i]),
        sorted_entries(resolve(es)),
        no_overlaps(resolve(es)),
        es.len() > 0 ==> resolve(es).len() > 0 && resolve(es)[0] == es[0],
{
    if es.len() > 0 {
        let e1 = es.drop_first();
        assert(sorted_entries(e1) && forall|i: int| 0 <= i < e1.len() ==> es[0].0 < (
        #[trigger] e1[i]).0) by {
            assert(forall|p: int| 0 <= p < e1.len() ==> e1[p] == es[p + 1]);
        }
        lemma_resolve_rec_props(e1, es[0]);
        let out = resolve(es);
        let out1 = resolve_rec(e1, es[0]);
        assert(out == seq![es[0]] + out1);
        assert forall|i: int| 0 <= i < out.len() implies es.contains(#[trigger] out[i]) by {
            if i == 0 {
                assert(es.contains(es[0]));
            } else {
                assert(out[i] == out1[i - 1]);
                assert(e1.contains(out1[i - 1]));
                let w = choose|w: int| 0 <= w < e1.len() && e1[w] == out1[i - 1];
                assert(es[w + 1] == e1[w]);
            }
        }
        assert(sorted_entries(out) && no_overlaps(out)) by {
            assert(forall|p: int| 0 < p < out.len() ==> out[p] == out1[p - 1]);
        }
    }
}

/// A sorted list with no overlaps passes the overlap walk unchanged.
proof fn lemma_resolve_rec_clean(rest: Seq<MatchEntry>, last: MatchEntry)
    requires
        sorted_entries(rest),
        no_overlaps(rest),
        forall|i: int|
            0 <= i < rest.len() ==> last.0 < (#[trigger] rest[i]).0 && !entries_overlap(
                last,
                rest[i],
            ),
    ensures
        resolve_rec(rest, last) == rest,
    decreases rest.len(),
{
    if rest.len() > 0 {
        let r1 = rest.drop_first();
        assert(forall|p: int| 0 <= p < r1.len() ==> r1[p] == rest[p + 1]);
        lemma_resolve_rec_clean(r1, rest[0]);
        assert(resolve_rec(rest, last) =~= rest);
    }
}

/// Resolution is idempotent: on a sorted, overlap-free list it is the
/// identity.
pub proof fn lemma_resolve_clean(es: Seq<MatchEntry>)
    requires
        sorted_entries(es),
        no_overlaps(es),
    ensures
        resolve(es) == es,
{
    if es.len() > 0 {
        let e1 = es.drop_first();
        assert(forall|p: int| 0 <= p < e1.len() ==> e1[p] == es[p + 1]);
        lemma_resolve_rec_clean(e1, es[0]);
        assert(resolve(es) =~= es);
    }
}

/// Stripping changes no offsets, so it keeps the order, and it can only
/// shrink byte ranges, so it keeps them non-overlapping.
pub proof fn lemma_strip_all_props(es: Seq<MatchEntry>)
    ensures
        strip_all(es).len() == es.len(),
        forall|i: int|
            0 <= i < es.len() ==> (#[trigger] strip_all(es)[i]).0 == es[i].0 && strip_all(
                es,
            )[i].1 == strip_bytes(es[i].1),
        sorted_entries(es) ==> sorted_entries(strip_all(es)),
        no_overlaps(es) ==> no_overlaps(strip_all(es)),
{
    let ss = strip_all(es);
    if no_overlaps(es) {
        assert forall|p: int, q: int| 0 <= p < q < ss.len() implies !entries_overlap(
            #[trigger] ss[p],
            #[trigger] ss[q],
        ) by {
            lemma_strip_bytes_props(es[p].1);
            lemma_strip_bytes_props(es[q].1);
            assert(!entries_overlap(es[p], es[q]));
        }
    }
}

/// The alignment filter keeps a sorted, overlap-free selection, every kept
/// entry passing the filter.
pub proof fn lemma_align_filter_props(es: Seq<MatchEntry>, alignment: Option<usize>)
    requires
        sorted_entries(es),
        no_overlaps(es),
    ensures
        forall|i: int|
            0 <= i < align_filter(es, alignment).len() ==> es.contains(
                #[trigger] align_filter(es, alignment)[i],
            ) && aligned_offset(align_filter(es, alignment)[i].0, alignment),
        sorted_entries(align_filter(es, alignment)),
        no_overlaps(align_filter(es, alignment)),
    decreases es.len(),
{
    if es.len() > 0 {
        let e1 = es.drop_first();
        assert(forall|p: int| 0 <= p < e1.len() ==> e1[p] == es[p + 1]);
        lemma_align_filter_props(e1, alignment);
        let out = align_filter(es, alignment);
        let out1 = align_filter(e1, alignment);
        if aligned_offset(es[0].0, alignment) {
            assert(out == seq![es[0]] + out1);
            assert forall|i: int| 0 <= i < out.len() implies es.contains(#[trigger] out[i])
                && aligned_offset(out[i].0, alignment) by {
                if i == 0 {
                    assert(es.contains(es[0]));
                } else {
                    assert(out[i] == out1[i - 1]);
                    assert(e1.contains(out1[i - 1]));
                    let w = choose|w: int| 0 <= w < e1.len() && e1[w] == out1[i - 1];
                    assert(es[w + 1] == e1[w]);
                }
            }
            assert forall|p: int, q: int| 0 <= p < q < out.len() implies out[p].0 < out[q].0
                && !entries_overlap(#[trigger] out[p], #[trigger] out[q]) by {
                assert(forall|w: int| 0 < w < out.len() ==> out[w] == out1[w - 1]);
                if p == 0 {
                    assert(e1.contains(out1[q - 1]));
                    let w = choose|w: int| 0 <= w < e1.len() && e1[w] == out1[q - 1];
                    assert(es[w + 1] == e1[w]);
                    assert(es[0].0 < es[w + 1].0);
                    assert(!entries_overlap(es[0], es[w + 1]));
                }
            }
        } else {
            assert forall|i: int| 0 <= i < out.len() implies es.contains(#[trigger] out[i])
                && aligned_offset(out[i].0, alignment) by {
                assert(e1.contains(out1[i]));
                let w = choose|w: int| 0 <= w < e1.len() && e1[w] == out1[i];
                assert(es[w + 1] == e1[w]);
            }
        }
    }
}

/// Omitting the alignment keeps the list unfiltered.
pub proof fn lemma_align_filter_none(es: Seq<MatchEntry>)
    ensures
        align_filter(es, Option::None) == es,
    decreases es.len(),
{
    if es.len() > 0 {
        lemma_align_filter_none(es.drop_first());
        assert(align_filter(es, Option::None) =~= es);
    }
}

/// Everything a returned result list guarantees: ascending offsets, no two
/// byte ranges overlapping, every offset passing the alignment filter, and
/// every entry the stripped text of one merged entry at its own offset.
pub proof fn lemma_spec_results_props(es: Seq<MatchEntry>, alignment: Option<usize>)
    requires
        wf_entries(es),
    ensures
        sorted_entries(spec_results(es, alignment)),
        no_overlaps(spec_results(es, alignment)),
        forall|i: int|
            0 <= i < spec_results(es, alignment).len() ==> aligned_offset(
                (#[trigger] spec_results(es, alignment)[i]).0,
                alignment,
            ),
        forall|i: int|
            0 <= i < spec_results(es, alignment).len() ==> exists|j: int|
                0 <= j < es.len() && (#[trigger] spec_results(es, alignment)[i]).0 == es[j].0
                    && spec_results(es, alignment)[i].1 == strip_bytes(es[j].1),
        forall|i: int, t: int|
            0 <= i < spec_results(es, alignment).len() && 0 <= t < spec_results(
                es,
                alignment,
            )[i].1.len() ==> !is_stripped_byte(#[trigger] spec_results(es, alignment)[i].1[t])
                && is_class_byte(spec_results(es, alignment)[i].1[t]),
        forall|i: int|
            0 <= i < spec_results(es, alignment).len() ==> (#[trigger] spec_results(
                es,
                alignment,
            )[i]).0 + spec_results(es, alignment)[i].1.len() <= usize::MAX,
{
    let rr = resolve(es);
    let ss = strip_all(rr);
    let sr = spec_results(es, alignment);
    lemma_resolve_props(es);
    lemma_strip_all_props(rr);
    lemma_align_filter_props(ss, alignment);
    assert forall|i: int| 0 <= i < sr.len() implies exists|j: int|
        0 <= j < es.len() && (#[trigger] sr[i]).0 == es[j].0 && sr[i].1 == strip_bytes(
            es[j].1,
        ) by {
        assert(ss.contains(sr[i]));
        let w = choose|w: int| 0 <= w < ss.len() && ss[w] == sr[i];
        assert(sr[i].0 == rr[w].0 && sr[i].1 == strip_bytes(rr[w].1));
        assert(es.contains(rr[w]));
        let j = choose|j: int| 0 <= j < es.len() && es[j] == rr[w];
        assert(sr[i].0 == es[j].0 && sr[i].1 == strip_bytes(es[j].1));
    }
    assert forall|i: int, t: int|
        0 <= i < sr.len() && 0 <= t < sr[i].1.len() implies !is_stripped_byte(
        #[trigger] sr[i].1[t],
    ) && is_class_byte(sr[i].1[t]) by {
        let j = choose|j: int|
            0 <= j < es.len() && (sr[i]).0 == es[j].0 && sr[i].1 == strip_bytes(es[j].1);
        lemma_strip_bytes_props(es[j].1);
        assert(es[j].1.contains(sr[i].1[t]));
        let w = choose|w: int| 0 <= w < es[j].1.len() && es[j].1[w] == sr[i].1[t];
        assert(is_class_byte(es[j].1[w]));
    }
    assert forall|i: int| 0 <= i < sr.len() implies (#[trigger] sr[i]).0 + sr[i].1.len()
        <= usize::MAX by {
        let j = choose|j: int|
            0 <= j < es.len() && (sr[i]).0 == es[j].0 && sr[i].1 == strip_bytes(es[j].1);
        lemma_strip_bytes_props(es[j].1);
        assert(es[j].0 + es[j].1.len() <= usize::MAX);
    }
}

/// For a power-of-two alignment the filter's bit test means exactly that
/// the alignment divides the offset.
/// A value with exactly one bit set is a power of two.
proof fn lemma_pow2_exponent(a: usize)
    requires
        a != 0,
        a & ((a - 1) as usize) == 0,
    ensures
        exists|n: nat| n < usize::BITS && a == vstd::arithmetic::power2::pow2(n),
    decreases a,
{
    vstd::arithmetic::power2::lemma2_to64();
    if a == 1 {
        assert(a == vstd::arithmetic::power2::pow2(0));
    } else {
        let h = a >> 1usize;
        assert(a & 1 == 0 && (a >> 1usize) != 0 && ((a >> 1usize) & vstd::prelude::sub(
            a >> 1usize,
            1,
        )) == 0 && a == (a >> 1usize) * 2 && (a >> 1usize) < a) by (bit_vector)
            requires
                a != 0 && a != 1 && (a & vstd::prelude::sub(a, 1)) == 0,
        ;
        assert(vstd::prelude::sub(h, 1) == (h - 1) as usize);
        lemma_pow2_exponent(h);
        let n = choose|n: nat|
            n < usize::BITS && h == vstd::arithmetic::power2::pow2(n);
        vstd::arithmetic::power2::lemma_pow2_unfold(n + 1);
        assert(a == vstd::arithmetic::power2::pow2(n + 1));
        if n + 1 >= usize::BITS {
            assert(n + 1 == usize::BITS);
            vstd::arithmetic::power2::lemma2_to64_rest();
            assert(false);
        }
    }
}

pub proof fn lemma_aligned_offset_divides(off: usize, a: usize)
    requires
        is_pow2(a),
    ensures
        aligned_offset(off, Option::Some(a)) <==> off as int % a as int == 0,
{
    lemma_pow2_exponent(a);
    let n = choose|n: nat| n < usize::BITS && a == vstd::arithmetic::power2::pow2(n);
    vstd::bits::lemma_usize_low_bits_mask_is_mod(off, n);
    vstd::arithmetic::power2::lemma_pow2_pos(n);
    assert((a - 1) as usize == vstd::bits::low_bits_mask(n) as usize);
    assert(off % a == 0 <==> off as int % a as int == 0);
}

/// With a power-of-two alignment, the alignment divides every returned
/// offset.
pub proof fn lemma_results_alignment(es: Seq<MatchEntry>, a: usize)
    requires
        wf_entries(es),
        is_pow2(a),
    ensures
        forall|i: int|
            0 <= i < spec_results(es, Option::Some(a)).len() ==> (#[trigger] spec_results(
                es,
                Option::Some(a),
            )[i]).0 as int % a as int == 0,
{
    lemma_spec_results_props(es, Option::Some(a));
    assert forall|i: int| 0 <= i < spec_results(es, Option::Some(a)).len() implies (
    #[trigger] spec_results(es, Option::Some(a))[i]).0 as int % a as int == 0 by {
        lemma_aligned_offset_divides(spec_results(es, Option::Some(a))[i].0, a);
    }
}

/// Finalizing is idempotent: resolving an already finalized (sorted,
/// overlap-free, stripped) list changes nothing.
pub proof fn lemma_finalize_idempotent(es: Seq<MatchEntry>)
    requires
        wf_entries(es),
    ensures
        spec_results(spec_results(es, Option::None), Option::None) == spec_results(
            es,
            Option::None,
        ),
{
    let rr = resolve(es);
    let r1 = strip_all(rr);
    lemma_resolve_props(es);
    lemma_strip_all_props(rr);
    lemma_align_filter_none(r1);
    assert(spec_results(es, Option::None) == r1);
    lemma_resolve_clean(r1);
    assert(strip_all(r1) =~~= r1) by {
        lemma_strip_all_props(r1);
        assert forall|i: int| 0 <= i < r1.len() implies #[trigger] strip_all(r1)[i] == r1[i] by {
            lemma_strip_bytes_idempotent(rr[i].1);
        }
    }
    lemma_align_filter_none(strip_all(r1));
}

/// Every returned entry is the stripped text of a merged entry whose
/// unstripped text meets the minimum length.
pub proof fn lemma_results_min_length(es: Seq<MatchEntry>, alignment: Option<usize>, min_len: int)
    requires
        wf_entries(es),
        forall|j: int| 0 <= j < es.len() ==> (#[trigger] es[j]).1.len() >= min_len,
    ensures
        forall|i: int|
            0 <= i < spec_results(es, alignment).len() ==> exists|j: int|
                0 <= j < es.len() && es[j].1.len() >= min_len && (#[trigger] spec_results(
                    es,
                    alignment,
                )[i]).0 == es[j].0 && spec_results(es, alignment)[i].1 == strip_bytes(es[j].1),
{
    lemma_spec_results_props(es, alignment);
}

/// Every match a window scan reports meets the minimum length.
pub proof fn lemma_scan_from_min_len(s: Seq<u8>, n: int, i: int)
    requires
        0 <= i <= s.len(),
    ensures
        forall|w: int|
            0 <= w < scan_from(s, n, i).len() ==> (#[trigger] scan_from(s, n, i)[w]).1.len() >= n,
    decreases s.len() - i,
{
    if i >= s.len() {
    } else {
        let k = run_len(s, i) as int;
        crate::zstrings::lemma_run_len_bound(s, i);
        let res = scan_from(s, n, i);
        if k >= n && i + k < s.len() && s[i + k] == 0 {
            lemma_scan_from_min_len(s, n, i + k + 1);
            let tail = scan_from(s, n, i + k + 1);
            assert(res == seq![(i, s.subrange(i, i + k))] + tail);
            assert forall|w: int| 0 <= w < res.len() implies (#[trigger] res[w]).1.len() >= n by {
                if w == 0 {
                    assert(res[0].1 == s.subrange(i, i + k));
                } else {
                    assert(res[w] == tail[w - 1]);
                }
            }
        } else if i + k + 1 <= s.len() {
            lemma_scan_from_min_len(s, n, i + k + 1);
            assert(res == scan_from(s, n, i + k + 1));
        }
    }
}

/// Every entry of a merge comes from one of its two sides.
pub proof fn lemma_merge_seq_members(a: Seq<MatchEntry>, b: Seq<MatchEntry>)
    ensures
        forall|i: int|
            0 <= i < merge_seq(a, b).len() ==> a.contains(#[trigger] merge_seq(a, b)[i])
                || b.contains(merge_seq(a, b)[i]),
    decreases a.len() + b.len(),
{
    let m = merge_seq(a, b);
    if a.len() == 0 || b.len() == 0 {
        assert(forall|i: int| 0 <= i < a.len() ==> a.contains(#[trigger] a[i]));
        assert(forall|i: int| 0 <= i < b.len() ==> b.contains(#[trigger] b[i]));
    } else {
        let a1 = a.drop_first();
        let b1 = b.drop_first();
        let rest = if a[0].0 < b[0].0 {
            merge_seq(a1, b)
        } else if b[0].0 < a[0].0 {
            merge_seq(a, b1)
        } else {
            merge_seq(a1, b1)
        };
        if a[0].0 < b[0].0 {
            lemma_merge_seq_members(a1, b);
            assert(m == seq![a[0]] + rest);
        } else if b[0].0 < a[0].0 {
            lemma_merge_seq_members(a, b1);
            assert(m == seq![b[0]] + rest);
        } else {
            lemma_merge_seq_members(a1, b1);
            assert(m == seq![b[0]] + rest);
        }
        assert forall|i: int| 0 <= i < m.len() implies a.contains(#[trigger] m[i]) || b.contains(
            m[i],
        ) by {
            if i == 0 {
                assert(a.contains(a[0]));
                assert(b.contains(b[0]));
            } else {
                assert(m[i] == rest[i - 1]);
                assert(a1.contains(rest[i - 1]) || b1.contains(rest[i - 1]) || a.contains(
                    rest[i - 1],
                ) || b.contains(rest[i - 1]));
                if a1.contains(rest[i - 1]) {
                    let w = choose|w: int| 0 <= w < a1.len() && a1[w] == rest[i - 1];
                    assert(a[w + 1] == a1[w]);
                }
                if b1.contains(rest[i - 1]) {
                    let w = choose|w: int| 0 <= w < b1.len() && b1[w] == rest[i - 1];
                    assert(b[w + 1] == b1[w]);
                }
            }
        }
    }
}

/// End to end: every text a scan-then-resolve pipeline returns was, before
/// stripping, a gathered match of at least the minimum length.
pub proof fn lemma_pipeline_min_length(
    s: Seq<u8>,
    n: int,
    cl: int,
    es: Seq<MatchEntry>,
    alignment: Option<usize>,
)
    requires
        cl >= 1,
        es == scan_windows(s, n, cl, 0, Seq::empty()),
        wf_entries(es),
    ensures
        forall|i: int|
            0 <= i < spec_results(es, alignment).len() ==> exists|j: int|
                0 <= j < es.len() && es[j].1.len() >= n && (#[trigger] spec_results(
                    es,
                    alignment,
                )[i]).0 == es[j].0 && spec_results(es, alignment)[i].1 == strip_bytes(es[j].1),
{
    lemma_scan_windows_min_len(s, n, cl, 0, Seq::empty());
    lemma_results_min_length(es, alignment, n);
}

/// Position `p` is where a scan of `s` from `i` on reports a match: it
/// starts a maximal run (it is the scan start, or the byte before it
/// breaks any run) of at least `n` class bytes followed by a NUL.
pub open spec fn match_at(s: Seq<u8>, n: int, i: int, p: int) -> bool {
    &&& i <= p < s.len()
    &&& run_len(s, p) >= n
    &&& p + run_len(s, p) < s.len()
    &&& s[p + run_len(s, p)] == 0
    &&& (p == i || !is_class_byte(s[p - 1]))
}

/// The scan finds exactly the matches `match_at` describes, each with the
/// bytes of its maximal run as text.
pub proof fn lemma_scan_from_characterization(s: Seq<u8>, n: int, i: int)
    requires
        0 <= i <= s.len(),
    ensures
        forall|w: int|
            0 <= w < scan_from(s, n, i).len() ==> match_at(
                s,
                n,
                i,
                (#[trigger] scan_from(s, n, i)[w]).0,
            ) && scan_from(s, n, i)[w].1 == s.subrange(
                scan_from(s, n, i)[w].0,
                scan_from(s, n, i)[w].0 + run_len(s, scan_from(s, n, i)[w].0),
            ),
        forall|p: int|
            match_at(s, n, i, p) ==> scan_from(s, n, i).contains(
                (p, s.subrange(p, p + run_len(s, p))),
            ),
    decreases s.len() - i,
{
    if i >= s.len() {
    } else {
        let k = run_len(s, i) as int;
        crate::zstrings::lemma_run_len_bound(s, i);
        let res = scan_from(s, n, i);
        if k >= n && i + k < s.len() && s[i + k] == 0 {
            lemma_scan_from_characterization(s, n, i + k + 1);
            let tail = scan_from(s, n, i + k + 1);
            assert(res == seq![(i, s.subrange(i, i + k))] + tail);
            assert forall|w: int| 0 <= w < res.len() implies match_at(
                s,
                n,
                i,
                (#[trigger] res[w]).0,
            ) && res[w].1 == s.subrange(res[w].0, res[w].0 + run_len(s, res[w].0)) by {
                if w == 0 {
                    assert(match_at(s, n, i, i));
                } else {
                    assert(res[w] == tail[w - 1]);
                    let p = tail[w - 1].0;
                    assert(match_at(s, n, i + k + 1, p));
                    if p == i + k + 1 {
                        assert(!is_class_byte(s[p - 1]));
                    }
                }
            }
            assert forall|p: int| match_at(s, n, i, p) implies res.contains(
                (p, s.subrange(p, p + run_len(s, p))),
            ) by {
                if p == i {
                    assert(res[0] == (p, s.subrange(p, p + run_len(s, p))));
                } else {
                    if p <= i + k {
                        assert(is_class_byte(s[p - 1]));
                        assert(false);
                    }
                    assert(match_at(s, n, i + k + 1, p));
                    assert(tail.contains((p, s.subrange(p, p + run_len(s, p)))));
                    let w = choose|w: int|
                        0 <= w < tail.len() && tail[w] == (p, s.subrange(p, p + run_len(s, p)));
                    assert(res[w + 1] == tail[w]);
                }
            }
        } else if i + k + 1 <= s.len() {
            lemma_scan_from_characterization(s, n, i + k + 1);
            let tail = scan_from(s, n, i + k + 1);
            assert(res == tail);
            assert forall|w: int| 0 <= w < res.len() implies match_at(
                s,
                n,
                i,
                (#[trigger] res[w]).0,
            ) && res[w].1 == s.subrange(res[w].0, res[w].0 + run_len(s, res[w].0)) by {
                let p = tail[w].0;
                assert(match_at(s, n, i + k + 1, p));
                if p == i + k + 1 {
                    assert(!is_class_byte(s[i + k]));
                }
            }
            assert forall|p: int| match_at(s, n, i, p) implies res.contains(
                (p, s.subrange(p, p + run_len(s, p))),
            ) by {
                assert(p != i);
                if p <= i + k {
                    assert(is_class_byte(s[p - 1]));
                    assert(false);
                }
                assert(match_at(s, n, i + k + 1, p));
            }
        } else {
            // the run reaches the buffer's end without a terminator
            assert forall|p: int| match_at(s, n, i, p) implies false by {
                if p > i {
                    assert(is_class_byte(s[p - 1]));
                }
            }
        }
    }
}

/// A run that lies strictly inside a window is the same run there.
pub proof fn lemma_run_len_subrange(s: Seq<u8>, x: int, limit: int, p: int)
    requires
        0 <= x <= p <= limit <= s.len(),
        p + run_len(s, p) < limit,
    ensures
        run_len(s.subrange(x, limit), p - x) == run_len(s, p),
    decreases s.len() - p,
{
    let sub = s.subrange(x, limit);
    if p < limit && is_class_byte(s[p]) {
        lemma_run_len_subrange(s, x, limit, p + 1);
        assert(sub[p - x] == s[p]);
    } else {
        if p < limit {
            assert(sub[p - x] == s[p]);
        }
        assert(run_len(sub, p - x) == 0);
    }
}

/// A merge keeps every right-hand entry.
pub proof fn lemma_merge_seq_right_complete(a: Seq<MatchEntry>, b: Seq<MatchEntry>)
    ensures
        forall|w: int| 0 <= w < b.len() ==> merge_seq(a, b).contains(#[trigger] b[w]),
    decreases a.len() + b.len(),
{
    let m = merge_seq(a, b);
    if a.len() == 0 {
        assert(forall|w: int| 0 <= w < b.len() ==> m[w] == #[trigger] b[w]);
    } else if b.len() == 0 {
    } else {
        let a1 = a.drop_first();
        let b1 = b.drop_first();
        if a[0].0 < b[0].0 {
            lemma_merge_seq_right_complete(a1, b);
            assert(m == seq![a[0]] + merge_seq(a1, b));
            assert forall|w: int| 0 <= w < b.len() implies m.contains(#[trigger] b[w]) by {
                assert(merge_seq(a1, b).contains(b[w]));
                let t = choose|t: int|
                    0 <= t < merge_seq(a1, b).len() && merge_seq(a1, b)[t] == b[w];
                assert(m[t + 1] == b[w]);
            }
        } else {
            let rest = if b[0].0 < a[0].0 {
                merge_seq(a, b1)
            } else {
                merge_seq(a1, b1)
            };
            if b[0].0 < a[0].0 {
                lemma_merge_seq_right_complete(a, b1);
            } else {
                lemma_merge_seq_right_complete(a1, b1);
            }
            assert(m == seq![b[0]] + rest);
            assert forall|w: int| 0 <= w < b.len() implies m.contains(#[trigger] b[w]) by {
                if w == 0 {
                    assert(m[0] == b[0]);
                } else {
                    assert(b1[w - 1] == b[w]);
                    assert(rest.contains(b[w]));
                    let t = choose|t: int| 0 <= t < rest.len() && rest[t] == b[w];
                    assert(m[t + 1] == b[w]);
                }
            }
        }
    }
}

/// A merge keeps every left-hand entry whose offset the right-hand side
/// does not also hold.
pub proof fn lemma_merge_seq_left_preserved(a: Seq<MatchEntry>, b: Seq<MatchEntry>, e: MatchEntry)
    requires
        a.contains(e),
        forall|w: int| 0 <= w < b.len() ==> (#[trigger] b[w]).0 != e.0,
    ensures
        merge_seq(a, b).contains(e),
    decreases a.len() + b.len(),
{
    let m = merge_seq(a, b);
    if b.len() == 0 {
    } else {
        let a1 = a.drop_first();
        let b1 = b.drop_first();
        let i0 = choose|w: int| 0 <= w < a.len() && a[w] == e;
        assert(forall|w: int| 0 <= w < b1.len() ==> (#[trigger] b1[w]).0 == b[w + 1].0);
        if a[0].0 < b[0].0 {
            assert(m == seq![a[0]] + merge_seq(a1, b));
            if i0 == 0 {
                assert(m[0] == e);
            } else {
                assert(a1[i0 - 1] == e);
                lemma_merge_seq_left_preserved(a1, b, e);
                let t = choose|t: int|
                    0 <= t < merge_seq(a1, b).len() && merge_seq(a1, b)[t] == e;
                assert(m[t + 1] == e);
            }
        } else if b[0].0 < a[0].0 {
            assert(m == seq![b[0]] + merge_seq(a, b1));
            lemma_merge_seq_left_preserved(a, b1, e);
            let t = choose|t: int| 0 <= t < merge_seq(a, b1).len() && merge_seq(a, b1)[t] == e;
            assert(m[t + 1] == e);
        } else {
            assert(m == seq![b[0]] + merge_seq(a1, b1));
            assert(i0 != 0);
            assert(a1[i0 - 1] == e);
            lemma_merge_seq_left_preserved(a1, b1, e);
            let t = choose|t: int|
                0 <= t < merge_seq(a1, b1).len() && merge_seq(a1, b1)[t] == e;
            assert(m[t + 1] == e);
        }
    }
}

/// Later windows cannot displace an entry before their own start: every
/// window's matches lie at or past the window's start offset.
pub proof fn lemma_scan_windows_preserves(
    s: Seq<u8>,
    n: int,
    cl: int,
    x: int,
    acc: Seq<MatchEntry>,
    e: MatchEntry,
)
    requires
        s.len() <= usize::MAX,
        cl >= 1,
        0 <= x,
        acc.contains(e),
        (e.0 as int) < x,
    ensures
        scan_windows(s, n, cl, x, acc).contains(e),
    decreases (if x < s.len() { s.len() - x } else { 0 }),
{
    if x >= s.len() {
    } else {
        let limit = crate::zstrings::window_limit(s.len() as int, cl, x);
        let sub = s.subrange(x, limit);
        let w = window_entries(s, n, cl, x);
        let raw = scan_from(sub, n, 0);
        lemma_scan_from_characterization(sub, n, 0);
        assert forall|t: int| 0 <= t < w.len() implies (#[trigger] w[t]).0 != e.0 by {
            assert(w[t] == (((raw[t].0 + x) as usize), raw[t].1));
            assert(match_at(sub, n, 0, raw[t].0));
            assert(raw[t].0 + x < s.len());
        }
        let merged = merge_seq(acc, w);
        lemma_merge_seq_left_preserved(acc, w, e);
        lemma_scan_windows_preserves(s, n, cl, x + cl, merged, e);
        assert(scan_windows(s, n, cl, x, acc) == scan_windows(s, n, cl, x + cl, merged));
    }
}

/// Walking window starts from `x` on reaches the window that wholly holds
/// the match at `p`, records it there, and keeps it through every later
/// merge.
pub proof fn lemma_scan_windows_finds(
    s: Seq<u8>,
    n: int,
    cl: int,
    x: int,
    acc: Seq<MatchEntry>,
    p: int,
)
    requires
        s.len() <= usize::MAX,
        cl >= crate::zstrings::MAX_STRING_LEN,
        0 <= x <= p,
        match_at(s, n, x, p),
        run_len(s, p) <= crate::zstrings::MAX_STRING_LEN,
    ensures
        scan_windows(s, n, cl, x, acc).contains(
            ((p as usize), s.subrange(p, p + run_len(s, p))),
        ),
    decreases s.len() - x,
{
    let k = run_len(s, p) as int;
    let limit = crate::zstrings::window_limit(s.len() as int, cl, x);
    let sub = s.subrange(x, limit);
    let w = window_entries(s, n, cl, x);
    let merged = merge_seq(acc, w);
    let e = ((p as usize), s.subrange(p, p + k));
    assert(x < s.len());
    if p < x + cl {
        // this window holds the whole match, terminator included
        assert(p + k + 1 <= limit);
        lemma_run_len_subrange(s, x, limit, p);
        assert(sub[(p - x) + k] == s[p + k]);
        if p > x {
            assert(sub[p - x - 1] == s[p - 1]);
        }
        assert(match_at(sub, n, 0, p - x));
        lemma_scan_from_characterization(sub, n, 0);
        let raw = scan_from(sub, n, 0);
        let local = (p - x, sub.subrange(p - x, p - x + k));
        assert(raw.contains(local));
        assert(sub.subrange(p - x, p - x + k) =~= s.subrange(p, p + k));
        let t = choose|t: int| 0 <= t < raw.len() && raw[t] == local;
        assert(w[t] == (((raw[t].0 + x) as usize), raw[t].1));
        assert(w[t] == e);
        lemma_merge_seq_right_complete(acc, w);
        assert(merged.contains(e));
        lemma_scan_windows_preserves(s, n, cl, x + cl, merged, e);
    } else {
        assert(match_at(s, n, x + cl, p));
        lemma_scan_windows_finds(s, n, cl, x + cl, merged, p);
    }
    assert(scan_windows(s, n, cl, x, acc) == scan_windows(s, n, cl, x + cl, merged));
}

/// Chunking loses no match: every match the plain one-pass scan finds
/// whose run fits the window overlap cap stands in the chunked merged
/// collection, at the same offset and with the same text, whatever the
/// chunk step.
pub proof fn lemma_chunked_scan_complete(s: Seq<u8>, n: int, cl: int, p: int)
    requires
        s.len() <= usize::MAX,
        cl >= crate::zstrings::MAX_STRING_LEN,
        match_at(s, n, 0, p),
        run_len(s, p) <= crate::zstrings::MAX_STRING_LEN,
    ensures
        scan_windows(s, n, cl, 0, Seq::empty()).contains(
            ((p as usize), s.subrange(p, p + run_len(s, p))),
        ),
{
    lemma_scan_windows_finds(s, n, cl, 0, Seq::empty(), p);
}

/// Position `q` starts a terminated run: at least `n` class bytes ending
/// right before a NUL. A plain-scan match is such a run that is also
/// maximal; a window that begins mid-run reports the run's tail, which is
/// terminated but not maximal.
pub open spec fn run_tail_at(s: Seq<u8>, n: int, q: int) -> bool {
    &&& 0 <= q < s.len()
    &&& run_len(s, q) >= n
    &&& q + run_len(s, q) < s.len()
    &&& s[q + run_len(s, q)] == 0
}

/// A stretch of class bytes up to a non-class byte is exactly the run.
proof fn lemma_run_len_exact(s: Seq<u8>, q: int, k: int)
    requires
        0 <= q,
        0 <= k,
        q + k < s.len(),
        forall|t: int| q <= t < q + k ==> is_class_byte(s[t]),
        !is_class_byte(s[q + k]),
    ensures
        run_len(s, q) == k,
    decreases k,
{
    if k > 0 {
        lemma_run_len_exact(s, q + 1, k - 1);
    }
}

/// Every match a window reports is a terminated run of the buffer itself:
/// the window's bytes are the buffer's, and the terminator lies inside the
/// window, so the run is not cut short.
proof fn lemma_window_entries_sound(s: Seq<u8>, n: int, cl: int, x: int)
    requires
        s.len() <= usize::MAX,
        cl >= 1,
        0 <= x < s.len(),
    ensures
        forall|t: int|
            0 <= t < window_entries(s, n, cl, x).len() ==> {
                let q = (#[trigger] window_entries(s, n, cl, x)[t]).0 as int;
                &&& x <= q
                &&& run_tail_at(s, n, q)
                &&& window_entries(s, n, cl, x)[t].1 == s.subrange(q, q + run_len(s, q))
            },
{
    let limit = crate::zstrings::window_limit(s.len() as int, cl, x);
    let sub = s.subrange(x, limit);
    let w = window_entries(s, n, cl, x);
    let raw = scan_from(sub, n, 0);
    lemma_scan_from_characterization(sub, n, 0);
    assert forall|t: int| 0 <= t < w.len() implies {
        let q = (#[trigger] w[t]).0 as int;
        &&& x <= q
        &&& run_tail_at(s, n, q)
        &&& w[t].1 == s.subrange(q, q + run_len(s, q))
    } by {
        assert(w[t] == (((raw[t].0 + x) as usize), raw[t].1));
        let p = raw[t].0;
        assert(match_at(sub, n, 0, p));
        let k = run_len(sub, p) as int;
        let q = p + x;
        assert(q < s.len());
        crate::zstrings::lemma_run_len_bound(sub, p);
        assert(forall|u: int| q <= u < q + k ==> s[u] == sub[u - x]);
        assert forall|u: int| q <= u < q + k implies is_class_byte(s[u]) by {
            assert(is_class_byte(sub[u - x]));
        }
        assert(s[q + k] == sub[p + k]);
        lemma_run_len_exact(s, q, k);
        assert(run_len(s, q) == k);
        assert(w[t].1 == sub.subrange(p, p + k));
        assert(sub.subrange(p, p + k) =~= s.subrange(q, q + k));
        assert((w[t].0 as int) == q);
    }
}

/// Everything the chunked scan gathers is a terminated run of the buffer,
/// held with the run's own bytes as text.
pub proof fn lemma_scan_windows_sound(s: Seq<u8>, n: int, cl: int, x: int, acc: Seq<MatchEntry>)
    requires
        s.len() <= usize::MAX,
        cl >= 1,
        0 <= x,
        forall|w: int|
            0 <= w < acc.len() ==> run_tail_at(s, n, (#[trigger] acc[w]).0 as int) && acc[w].1
                == s.subrange(acc[w].0 as int, acc[w].0 + run_len(s, acc[w].0 as int)),
    ensures
        forall|w: int|
            0 <= w < scan_windows(s, n, cl, x, acc).len() ==> run_tail_at(
                s,
                n,
                (#[trigger] scan_windows(s, n, cl, x, acc)[w]).0 as int,
            ) && scan_windows(s, n, cl, x, acc)[w].1 == s.subrange(
                scan_windows(s, n, cl, x, acc)[w].0 as int,
                scan_windows(s, n, cl, x, acc)[w].0 + run_len(
                    s,
                    scan_windows(s, n, cl, x, acc)[w].0 as int,
                ),
            ),
    decreases (if x < s.len() { s.len() - x } else { 0 }),
{
    if x >= s.len() {
    } else {
        let w = window_entries(s, n, cl, x);
        lemma_window_entries_sound(s, n, cl, x);
        let merged = merge_seq(acc, w);
        lemma_merge_seq_members(acc, w);
        assert forall|t: int| 0 <= t < merged.len() implies run_tail_at(
            s,
            n,
            (#[trigger] merged[t]).0 as int,
        ) && merged[t].1 == s.subrange(
            merged[t].0 as int,
            merged[t].0 + run_len(s, merged[t].0 as int),
        ) by {
            if acc.contains(merged[t]) {
                let v = choose|v: int| 0 <= v < acc.len() && acc[v] == merged[t];
                assert(run_tail_at(s, n, acc[v].0 as int));
            } else {
                let v = choose|v: int| 0 <= v < w.len() && w[v] == merged[t];
                assert(run_tail_at(s, n, w[v].0 as int));
            }
        }
        lemma_scan_windows_sound(s, n, cl, x + cl, merged);
        assert(scan_windows(s, n, cl, x, acc) == scan_windows(s, n, cl, x + cl, merged));
    }
}

/// Every terminated run lies in a maximal one that shares its terminator:
/// the plain-scan match the chunked scan's extra entries are tails of.
pub proof fn lemma_run_start(s: Seq<u8>, n: int, q: int)
    requires
        run_tail_at(s, n, q),
    ensures
        exists|p: int|
            #![trigger match_at(s, n, 0, p)]
            match_at(s, n, 0, p) && p <= q && p + run_len(s, p) == q + run_len(s, q),
    decreases q,
{
    if q == 0 || !is_class_byte(s[q - 1]) {
        assert(match_at(s, n, 0, q));
    } else {
        assert(run_len(s, q - 1) == 1 + run_len(s, q));
        lemma_run_start(s, n, q - 1);
    }
}

/// A position inside a run reaches the same run end.
proof fn lemma_run_len_split(s: Seq<u8>, p: int, q: int)
    requires
        0 <= p <= q <= p + run_len(s, p),
        p <= s.len(),
    ensures
        run_len(s, p) == (q - p) + run_len(s, q),
    decreases q - p,
{
    if p < q {
        crate::zstrings::lemma_run_len_bound(s, p);
        lemma_run_len_split(s, p + 1, q);
    }
}

/// The entries at maximal run starts, in order: what overlap resolution
/// keeps of a chunked merged collection.
pub open spec fn keep_maximal(s: Seq<u8>, n: int, es: Seq<MatchEntry>) -> Seq<MatchEntry>
    decreases es.len(),
{
    if es.len() == 0 {
        Seq::empty()
    } else if match_at(s, n, 0, es[0].0 as int) {
        seq![es[0]] + keep_maximal(s, n, es.drop_first())
    } else {
        keep_maximal(s, n, es.drop_first())
    }
}

/// The overlap walk, run after a maximal match, drops exactly the entries
/// at non-maximal positions: each is a tail of an already accepted match
/// and overlaps it, while each maximal entry clears the last accepted
/// match and is kept.
proof fn lemma_resolve_rec_maximal(s: Seq<u8>, n: int, rest: Seq<MatchEntry>, last: MatchEntry)
    requires
        s.len() <= usize::MAX,
        sorted_entries(rest),
        forall|w: int| 0 <= w < rest.len() ==> (#[trigger] rest[w]).0 > last.0,
        forall|w: int|
            0 <= w < rest.len() ==> run_tail_at(s, n, (#[trigger] rest[w]).0 as int) && rest[w].1
                == s.subrange(rest[w].0 as int, rest[w].0 + run_len(s, rest[w].0 as int)),
        match_at(s, n, 0, last.0 as int),
        last.1 == s.subrange(last.0 as int, last.0 + run_len(s, last.0 as int)),
        forall|p: int|
            #![trigger match_at(s, n, 0, p)]
            match_at(s, n, 0, p) && p > last.0 ==> rest.contains(
                ((p as usize), s.subrange(p, p + run_len(s, p))),
            ),
    ensures
        resolve_rec(rest, last) == keep_maximal(s, n, rest),
    decreases rest.len(),
{
    if rest.len() == 0 {
    } else {
        let e0 = rest[0];
        let r1 = rest.drop_first();
        assert(forall|w: int| 0 <= w < r1.len() ==> r1[w] == rest[w + 1]);
        let q = e0.0 as int;
        let llen = run_len(s, last.0 as int) as int;
        let lend = last.0 + llen;
        let qlen = run_len(s, q) as int;
        assert(run_tail_at(s, n, q));
        assert(e0.1.len() == qlen);
        assert(last.1.len() == llen);
        if q <= lend {
            // a tail of the last accepted match: shares its run end, so
            // their ranges overlap, and the byte before it is in the run
            lemma_run_len_split(s, last.0 as int, q);
            assert(q + qlen == lend);
            assert(entries_overlap(e0, last));
            crate::zstrings::lemma_run_len_bound(s, last.0 as int);
            assert(q > last.0);
            assert(llen >= 1);
            assert(is_class_byte(s[q - 1]));
            assert(!match_at(s, n, 0, q));
            assert(resolve_rec(rest, last) == resolve_rec(r1, last));
            assert(keep_maximal(s, n, rest) == keep_maximal(s, n, r1));
            assert forall|p: int|
                match_at(s, n, 0, p) && p > last.0 implies r1.contains(
                ((p as usize), s.subrange(p, p + run_len(s, p))),
            ) by {
                assert(rest.contains(((p as usize), s.subrange(p, p + run_len(s, p)))));
                let w = choose|w: int|
                    0 <= w < rest.len() && rest[w] == (
                        (p as usize),
                        s.subrange(p, p + run_len(s, p)),
                    );
                assert(w != 0);
                assert(r1[w - 1] == rest[w]);
            }
            lemma_resolve_rec_maximal(s, n, r1, last);
        } else {
            // past the last accepted match: no overlap, and it must be
            // maximal, else the maximal start of its run would stand in
            // the collection before it
            assert(!entries_overlap(e0, last));
            if !match_at(s, n, 0, q) {
                lemma_run_start(s, n, q);
                let p = choose|p: int|
                    match_at(s, n, 0, p) && p <= q && p + run_len(s, p) == q + run_len(s, q);
                assert(p != q);
                if p <= last.0 {
                    crate::zstrings::lemma_run_len_bound(s, p);
                    if p < last.0 {
                        assert(last.0 < q <= p + run_len(s, p));
                        assert(is_class_byte(s[last.0 - 1]));
                        assert(false);
                    } else {
                        assert(lend == q + run_len(s, q));
                        assert(false);
                    }
                }
                assert(rest.contains(((p as usize), s.subrange(p, p + run_len(s, p)))));
                let w = choose|w: int|
                    0 <= w < rest.len() && rest[w] == (
                        (p as usize),
                        s.subrange(p, p + run_len(s, p)),
                    );
                assert(rest[w].0 < rest[0].0);
                assert(false);
            }
            assert(resolve_rec(rest, last) == seq![e0] + resolve_rec(r1, e0));
            assert(keep_maximal(s, n, rest) == seq![e0] + keep_maximal(s, n, r1));
            assert forall|p: int|
                match_at(s, n, 0, p) && p > e0.0 implies r1.contains(
                ((p as usize), s.subrange(p, p + run_len(s, p))),
            ) by {
                assert(p > last.0);
                assert(rest.contains(((p as usize), s.subrange(p, p + run_len(s, p)))));
                let w = choose|w: int|
                    0 <= w < rest.len() && rest[w] == (
                        (p as usize),
                        s.subrange(p, p + run_len(s, p)),
                    );
                assert(w != 0);
                assert(r1[w - 1] == rest[w]);
            }
            lemma_resolve_rec_maximal(s, n, r1, e0);
        }
    }
}

/// Overlap resolution of a chunked merged collection keeps exactly the
/// entries at maximal run starts.
pub proof fn lemma_resolve_maximal(s: Seq<u8>, n: int, es: Seq<MatchEntry>)
    requires
        s.len() <= usize::MAX,
        sorted_entries(es),
        forall|w: int|
            0 <= w < es.len() ==> run_tail_at(s, n, (#[trigger] es[w]).0 as int) && es[w].1
                == s.subrange(es[w].0 as int, es[w].0 + run_len(s, es[w].0 as int)),
        forall|p: int|
            #![trigger match_at(s, n, 0, p)]
            match_at(s, n, 0, p) ==> es.contains(((p as usize), s.subrange(p, p + run_len(s, p)))),
    ensures
        resolve(es) == keep_maximal(s, n, es),
{
    if es.len() > 0 {
        let e1 = es.drop_first();
        assert(forall|w: int| 0 <= w < e1.len() ==> e1[w] == es[w + 1]);
        let q = es[0].0 as int;
        assert(match_at(s, n, 0, q)) by {
            if !match_at(s, n, 0, q) {
                lemma_run_start(s, n, q);
                let p = choose|p: int|
                    match_at(s, n, 0, p) && p <= q && p + run_len(s, p) == q + run_len(s, q);
                assert(es.contains(((p as usize), s.subrange(p, p + run_len(s, p)))));
                let w = choose|w: int|
                    0 <= w < es.len() && es[w] == (
                        (p as usize),
                        s.subrange(p, p + run_len(s, p)),
                    );
                assert(p != q);
                assert(es[w].0 < es[0].0);
                assert(false);
            }
        }
        assert forall|p: int|
            match_at(s, n, 0, p) && p > es[0].0 implies e1.contains(
            ((p as usize), s.subrange(p, p + run_len(s, p))),
        ) by {
            assert(es.contains(((p as usize), s.subrange(p, p + run_len(s, p)))));
            let w = choose|w: int|
                0 <= w < es.len() && es[w] == ((p as usize), s.subrange(p, p + run_len(s, p)));
            assert(w != 0);
            assert(e1[w - 1] == es[w]);
        }
        lemma_resolve_rec_maximal(s, n, e1, es[0]);
        assert(resolve(es) == seq![es[0]] + resolve_rec(e1, es[0]));
        assert(keep_maximal(s, n, es) == seq![es[0]] + keep_maximal(s, n, e1));
    }
}

/// What `keep_maximal` selects: exactly the entries at maximal positions,
/// in their original ascending order.
proof fn lemma_keep_maximal_props(s: Seq<u8>, n: int, es: Seq<MatchEntry>)
    requires
        sorted_entries(es),
    ensures
        forall|w: int|
            0 <= w < keep_maximal(s, n, es).len() ==> es.contains(
                #[trigger] keep_maximal(s, n, es)[w],
            ) && match_at(s, n, 0, keep_maximal(s, n, es)[w].0 as int),
        forall|w: int|
            0 <= w < es.len() && match_at(s, n, 0, (#[trigger] es[w]).0 as int)
                ==> keep_maximal(s, n, es).contains(es[w]),
        sorted_entries(keep_maximal(s, n, es)),
    decreases es.len(),
{
    if es.len() > 0 {
        let e1 = es.drop_first();
        assert(forall|w: int| 0 <= w < e1.len() ==> e1[w] == es[w + 1]);
        lemma_keep_maximal_props(s, n, e1);
        let km = keep_maximal(s, n, es);
        let km1 = keep_maximal(s, n, e1);
        if match_at(s, n, 0, es[0].0 as int) {
            assert(km == seq![es[0]] + km1);
            assert forall|w: int| 0 <= w < km.len() implies es.contains(#[trigger] km[w])
                && match_at(s, n, 0, km[w].0 as int) by {
                if w == 0 {
                    assert(es.contains(es[0]));
                } else {
                    assert(km[w] == km1[w - 1]);
                    assert(e1.contains(km1[w - 1]));
                    let v = choose|v: int| 0 <= v < e1.len() && e1[v] == km1[w - 1];
                    assert(es[v + 1] == e1[v]);
                }
            }
            assert forall|w: int|
                0 <= w < es.len() && match_at(s, n, 0, (#[trigger] es[w]).0 as int) implies
                km.contains(es[w]) by {
                if w == 0 {
                    assert(km[0] == es[0]);
                } else {
                    assert(km1.contains(e1[w - 1]));
                    let v = choose|v: int| 0 <= v < km1.len() && km1[v] == e1[w - 1];
                    assert(km[v + 1] == km1[v]);
                }
            }
            assert forall|p: int, q: int| 0 <= p < q < km.len() implies (#[trigger] km[p]).0 < (
            #[trigger] km[q]).0 by {
                assert(forall|w: int| 0 < w < km.len() ==> km[w] == km1[w - 1]);
                if p == 0 {
                    assert(e1.contains(km1[q - 1]));
                    let v = choose|v: int| 0 <= v < e1.len() && e1[v] == km1[q - 1];
                    assert(es[0].0 < es[v + 1].0);
                }
            }
        } else {
            assert(km == km1);
            assert forall|w: int| 0 <= w < km.len() implies es.contains(#[trigger] km[w])
                && match_at(s, n, 0, km[w].0 as int) by {
                assert(e1.contains(km1[w]));
                let v = choose|v: int| 0 <= v < e1.len() && e1[v] == km1[w];
                assert(es[v + 1] == e1[v]);
            }
            assert forall|w: int|
                0 <= w < es.len() && match_at(s, n, 0, (#[trigger] es[w]).0 as int) implies
                km.contains(es[w]) by {
                assert(w != 0);
                assert(e1[w - 1] == es[w]);
            }
        }
    }
}

/// Two strictly sorted lists with the same members are the same list.
proof fn lemma_sorted_unique_set_eq(a: Seq<MatchEntry>, b: Seq<MatchEntry>)
    requires
        sorted_entries(a),
        sorted_entries(b),
        forall|e: MatchEntry| a.contains(e) <==> b.contains(e),
    ensures
        a == b,
    decreases a.len() + b.len(),
{
    if a.len() == 0 {
        if b.len() > 0 {
            assert(b.contains(b[0]));
            assert(a.contains(b[0]));
            assert(false);
        }
        assert(a =~= b);
    } else if b.len() == 0 {
        assert(a.contains(a[0]));
        assert(b.contains(a[0]));
        assert(false);
    } else {
        assert(a.contains(a[0]));
        assert(b.contains(a[0]));
        let w = choose|w: int| 0 <= w < b.len() && b[w] == a[0];
        assert(b.contains(b[0]));
        assert(a.contains(b[0]));
        let v = choose|v: int| 0 <= v < a.len() && a[v] == b[0];
        if w > 0 {
            assert(b[0].0 < b[w].0);
            assert(a[0].0 <= a[v].0);
            assert(false);
        }
        assert(a[0] == b[0]);
        let a1 = a.drop_first();
        let b1 = b.drop_first();
        assert(forall|t: int| 0 <= t < a1.len() ==> a1[t] == a[t + 1]);
        assert(forall|t: int| 0 <= t < b1.len() ==> b1[t] == b[t + 1]);
        assert forall|e: MatchEntry| a1.contains(e) <==> b1.contains(e) by {
            if a1.contains(e) {
                let t = choose|t: int| 0 <= t < a1.len() && a1[t] == e;
                assert(a[t + 1] == e);
                assert(a.contains(e));
                assert(e.0 > a[0].0);
                assert(b.contains(e));
                let u = choose|u: int| 0 <= u < b.len() && b[u] == e;
                assert(u != 0);
                assert(b1[u - 1] == e);
            }
            if b1.contains(e) {
                let t = choose|t: int| 0 <= t < b1.len() && b1[t] == e;
                assert(b[t + 1] == e);
                assert(b.contains(e));
                assert(e.0 > b[0].0);
                assert(a.contains(e));
                let u = choose|u: int| 0 <= u < a.len() && a[u] == e;
                assert(u != 0);
                assert(a1[u - 1] == e);
            }
        }
        lemma_sorted_unique_set_eq(a1, b1);
        assert(a.len() == b.len());
        assert forall|t: int| 0 <= t < a.len() implies a[t] == b[t] by {
            if t > 0 {
                assert(a[t] == a1[t - 1]);
                assert(b[t] == b1[t - 1]);
            }
        }
        assert(a =~= b);
    }
}

/// Chunking does not change what is accepted: when every maximal run fits
/// the window overlap cap, the chunked scan and the plain one-pass scan
/// resolve to the same entries, and so return the same result list under
/// every alignment.
pub proof fn lemma_results_chunk_independent(
    s: Seq<u8>,
    n: int,
    cl: int,
    es: Seq<MatchEntry>,
    plain: Seq<MatchEntry>,
)
    requires
        s.len() <= usize::MAX,
        cl >= crate::zstrings::MAX_STRING_LEN,
        es == scan_windows(s, n, cl, 0, Seq::empty()),
        plain == shift_entries(scan_from(s, n, 0), 0),
        wf_entries(es),
        wf_entries(plain),
        forall|p: int|
            #![trigger run_len(s, p)]
            match_at(s, n, 0, p) ==> run_len(s, p) <= crate::zstrings::MAX_STRING_LEN,
    ensures
        resolve(es) == resolve(plain),
        forall|alignment: Option<usize>|
            #![trigger spec_results(es, alignment)]
            spec_results(es, alignment) == spec_results(plain, alignment),
{
    let raw = scan_from(s, n, 0);
    lemma_scan_windows_sound(s, n, cl, 0, Seq::empty());
    lemma_scan_from_characterization(s, n, 0);
    assert forall|p: int|
        #![trigger match_at(s, n, 0, p)]
        match_at(s, n, 0, p) implies es.contains(
        ((p as usize), s.subrange(p, p + run_len(s, p))),
    ) by {
        lemma_chunked_scan_complete(s, n, cl, p);
    }
    assert forall|w: int| 0 <= w < plain.len() implies run_tail_at(
        s,
        n,
        (#[trigger] plain[w]).0 as int,
    ) && plain[w].1 == s.subrange(
        plain[w].0 as int,
        plain[w].0 + run_len(s, plain[w].0 as int),
    ) by {
        assert(plain[w] == (((raw[w].0 + 0) as usize), raw[w].1));
        assert(match_at(s, n, 0, raw[w].0));
    }
    assert forall|p: int|
        #![trigger match_at(s, n, 0, p)]
        match_at(s, n, 0, p) implies plain.contains(
        ((p as usize), s.subrange(p, p + run_len(s, p))),
    ) by {
        assert(raw.contains((p, s.subrange(p, p + run_len(s, p)))));
        let w = choose|w: int|
            0 <= w < raw.len() && raw[w] == (p, s.subrange(p, p + run_len(s, p)));
        assert(plain[w] == (((raw[w].0 + 0) as usize), raw[w].1));
    }
    lemma_resolve_maximal(s, n, es);
    lemma_resolve_maximal(s, n, plain);
    lemma_keep_maximal_props(s, n, es);
    lemma_keep_maximal_props(s, n, plain);
    let kes = keep_maximal(s, n, es);
    let kpl = keep_maximal(s, n, plain);
    assert forall|e: MatchEntry| kes.contains(e) <==> kpl.contains(e) by {
        if kes.contains(e) {
            let w = choose|w: int| 0 <= w < kes.len() && kes[w] == e;
            assert(es.contains(e) && match_at(s, n, 0, e.0 as int));
            let u = choose|u: int| 0 <= u < es.len() && es[u] == e;
            assert(e.1 == s.subrange(e.0 as int, e.0 + run_len(s, e.0 as int)));
            assert(plain.contains(((e.0 as int as usize), s.subrange(
                e.0 as int,
                e.0 + run_len(s, e.0 as int),
            ))));
            assert(plain.contains(e));
            let v = choose|v: int| 0 <= v < plain.len() && plain[v] == e;
            assert(kpl.contains(plain[v]));
        }
        if kpl.contains(e) {
            let w = choose|w: int| 0 <= w < kpl.len() && kpl[w] == e;
            assert(plain.contains(e) && match_at(s, n, 0, e.0 as int));
            let u = choose|u: int| 0 <= u < plain.len() && plain[u] == e;
            assert(e.1 == s.subrange(e.0 as int, e.0 + run_len(s, e.0 as int)));
            assert(es.contains(((e.0 as int as usize), s.subrange(
                e.0 as int,
                e.0 + run_len(s, e.0 as int),
            ))));
            assert(es.contains(e));
            let v = choose|v: int| 0 <= v < es.len() && es[v] == e;
            assert(kes.contains(es[v]));
        }
    }
    lemma_sorted_unique_set_eq(kes, kpl);
}

/// A chunk step that covers the whole buffer leaves one window, and
/// scanning it is the plain left-to-right scan of the buffer.
pub proof fn lemma_single_window_scan(s: Seq<u8>, n: int, cl: int)
    requires
        cl >= 1,
        cl >= s.len(),
    ensures
        scan_windows(s, n, cl, 0, Seq::empty()) == shift_entries(scan_from(s, n, 0), 0),
{
    if s.len() == 0 {
        assert(shift_entries(scan_from(s, n, 0), 0) =~~= Seq::<MatchEntry>::empty());
    } else {
        let w = window_entries(s, n, cl, 0);
        assert(crate::zstrings::window_limit(s.len() as int, cl, 0) == s.len());
        assert(s.subrange(0, s.len() as int) =~~= s);
        assert(merge_seq(Seq::empty(), w) == w);
        assert(scan_windows(s, n, cl, cl, w) == w);
        assert(scan_windows(s, n, cl, 0, Seq::empty()) == w);
    }
}

/// With a single chunk the whole gathered collection is exactly what one
/// pass over the buffer finds: the reference point against which scans
/// with more chunks are compared.
pub proof fn lemma_one_chunk_is_plain_scan(s: Seq<u8>, n: int)
    ensures
        scan_windows(
            s,
            n,
            crate::zstrings::spec_chunk_len(s.len() as int, 1),
            0,
            Seq::empty(),
        ) == shift_entries(scan_from(s, n, 0), 0),
{
    lemma_single_window_scan(s, n, crate::zstrings::spec_chunk_len(s.len() as int, 1));
}

/// Every entry the whole chunked scan gathers meets the minimum length.
pub proof fn lemma_scan_windows_min_len(
    s: Seq<u8>,
    n: int,
    cl: int,
    x: int,
    acc: Seq<MatchEntry>,
)
    requires
        cl >= 1,
        forall|j: int| 0 <= j < acc.len() ==> (#[trigger] acc[j]).1.len() >= n,
    ensures
        forall|j: int|
            0 <= j < scan_windows(s, n, cl, x, acc).len() ==> (#[trigger] scan_windows(
                s,
                n,
                cl,
                x,
                acc,
            )[j]).1.len() >= n,
    decreases (if x < s.len() { s.len() - x } else { 0 }),
{
    if x < 0 || x >= s.len() {
    } else {
        let w = window_entries(s, n, cl, x);
        let sub = s.subrange(x, crate::zstrings::window_limit(s.len() as int, cl, x));
        lemma_scan_from_min_len(sub, n, 0);
        assert(forall|j: int| 0 <= j < w.len() ==> (#[trigger] w[j]).1.len() >= n);
        let merged = merge_seq(acc, w);
        lemma_merge_seq_members(acc, w);
        assert forall|j: int| 0 <= j < merged.len() implies (#[trigger] merged[j]).1.len() >= n by {
            if acc.contains(merged[j]) {
                let p = choose|p: int| 0 <= p < acc.len() && acc[p] == merged[j];
                assert(acc[p].1.len() >= n);
            } else {
                let p = choose|p: int| 0 <= p < w.len() && w[p] == merged[j];
                assert(w[p].1.len() >= n);
            }
        }
        lemma_scan_windows_min_len(s, n, cl, x + cl, merged);
        assert(scan_windows(s, n, cl, x, acc) == scan_windows(s, n, cl, x + cl, merged));
    }
}

} // verus!
