//! A least-significant-digit radix sort for packed table entries: three
//! counting-sort passes over the low three bytes of each 64-bit entry.
//! Each pass is stable on the bits already sorted, so after the third pass
//! the entries are ordered by their whole 24-bit value field.

use vstd::multiset::Multiset;
use vstd::multiset::group_multiset_axioms;
use vstd::prelude::*;
use vstd::relations::sorted_by;
use vstd::relations::total_ordering;
use vstd::seq_lib::*;

verus! {

/// `s` is non-decreasing in the bits selected by mask `m`.
pub open spec fn sorted_by_mask(s: Seq<u64>, m: u64) -> bool {
    forall|i: int, j: int|
        #![trigger s[i] & m, s[j] & m]
        0 <= i < j < s.len() ==> (s[i] & m) <= (s[j] & m)
}

/// The byte of `e` at bit offset `shift`.
pub open spec fn byte_at(e: u64, shift: u64) -> u64 {
    (e >> shift) & 0xff
}

/// The shifts of the three passes, least significant byte first.
pub open spec fn valid_shift(shift: u64) -> bool {
    shift == 0 || shift == 8 || shift == 16
}

/// The bits below the byte sorted by the pass at `shift`.
pub open spec fn pre_mask(shift: u64) -> u64 {
    if shift == 0 { 0 } else if shift == 8 { 0xff } else { 0xffff }
}

/// The bits sorted once the pass at `shift` is done.
pub open spec fn post_mask(shift: u64) -> u64 {
    if shift == 0 { 0xff } else if shift == 8 { 0xffff } else { 0xffffff }
}

/// Membership in the bucket for byte value `t` of the pass at `shift`.
pub open spec fn byte_pred(shift: u64, t: u64) -> spec_fn(u64) -> bool {
    |e: u64| byte_at(e, shift) == t
}

/// The entries of `s` whose byte at `shift` is `t`, in order.
pub open spec fn filter_byte(s: Seq<u64>, shift: u64, t: u64) -> Seq<u64> {
    s.filter(byte_pred(shift, t))
}

/// How many of the first `i` entries of `s` have byte `b` at `shift`.
pub open spec fn cnt(s: Seq<u64>, shift: u64, b: u64, i: int) -> int
    decreases i,
{
    if i <= 0 {
        0
    } else {
        cnt(s, shift, b, i - 1) + (if byte_at(s[i - 1], shift) == b { 1int } else { 0int })
    }
}

/// The counts of all byte values below `bmax`, over the first `i` entries.
pub open spec fn sum_cnt(s: Seq<u64>, shift: u64, bmax: int, i: int) -> int
    decreases bmax,
{
    if bmax <= 0 {
        0
    } else {
        sum_cnt(s, shift, bmax - 1, i) + cnt(s, shift, (bmax - 1) as u64, i)
    }
}

/// Where the bucket for byte value `b` starts in the scattered output.
pub open spec fn bucket_start(s: Seq<u64>, shift: u64, b: int) -> int {
    sum_cnt(s, shift, b, s.len() as int)
}

/// The multiset of all entries of `s` whose byte at `shift` is below `b`.
pub open spec fn msum(s: Seq<u64>, shift: u64, b: int) -> Multiset<u64>
    decreases b,
{
    if b <= 0 {
        Multiset::empty()
    } else {
        msum(s, shift, b - 1).add(filter_byte(s, shift, (b - 1) as u64).to_multiset())
    }
}

proof fn lemma_byte_at_bound(e: u64, shift: u64)
    ensures
        byte_at(e, shift) < 256,
{
    assert(((e >> shift) & 0xff) < 256) by (bit_vector);
}

proof fn lemma_mask_zero_sorted(s: Seq<u64>)
    ensures
        sorted_by_mask(s, 0),
{
    assert forall|i: int, j: int| 0 <= i < j < s.len() implies (s[i] & 0) <= (s[j] & 0) by {
        let x: u64 = s[i];
        let y: u64 = s[j];
        assert((x & 0) == 0 && (y & 0) == 0) by (bit_vector);
    }
}

proof fn lemma_byte_order_post(x: u64, y: u64, shift: u64)
    requires
        valid_shift(shift),
    ensures
        byte_at(x, shift) < byte_at(y, shift) ==> (x & post_mask(shift)) < (y & post_mask(shift)),
        byte_at(x, shift) == byte_at(y, shift) && (x & pre_mask(shift)) <= (y & pre_mask(shift))
            ==> (x & post_mask(shift)) <= (y & post_mask(shift)),
{
    if shift == 0 {
        assert(((((x >> 0u64) & 0xff) < ((y >> 0u64) & 0xff)) ==> ((x & 0xff) < (y & 0xff)))
            && (((((x >> 0u64) & 0xff) == ((y >> 0u64) & 0xff)) && ((x & 0) <= (y & 0)))
                ==> ((x & 0xff) <= (y & 0xff)))) by (bit_vector);
    } else if shift == 8 {
        assert(((((x >> 8u64) & 0xff) < ((y >> 8u64) & 0xff)) ==> ((x & 0xffff) < (y & 0xffff)))
            && (((((x >> 8u64) & 0xff) == ((y >> 8u64) & 0xff)) && ((x & 0xff) <= (y & 0xff)))
                ==> ((x & 0xffff) <= (y & 0xffff)))) by (bit_vector);
    } else {
        assert(((((x >> 16u64) & 0xff) < ((y >> 16u64) & 0xff))
            ==> ((x & 0xffffff) < (y & 0xffffff)))
            && (((((x >> 16u64) & 0xff) == ((y >> 16u64) & 0xff)) && ((x & 0xffff) <= (y & 0xffff)))
                ==> ((x & 0xffffff) <= (y & 0xffffff)))) by (bit_vector);
    }
}

proof fn lemma_cnt_bounds(s: Seq<u64>, shift: u64, b: u64, i: int)
    requires
        i >= 0,
    ensures
        0 <= cnt(s, shift, b, i) <= i,
    decreases i,
{
    if i > 0 {
        lemma_cnt_bounds(s, shift, b, i - 1);
    }
}

proof fn lemma_cnt_mono(s: Seq<u64>, shift: u64, b: u64, i1: int, i2: int)
    requires
        0 <= i1 <= i2,
    ensures
        cnt(s, shift, b, i1) <= cnt(s, shift, b, i2),
    decreases i2,
{
    if i2 > i1 {
        lemma_cnt_mono(s, shift, b, i1, i2 - 1);
    }
}

proof fn lemma_sum_cnt_step(s: Seq<u64>, shift: u64, bmax: int, i: int)
    requires
        0 <= i < s.len(),
        0 <= bmax <= 256,
    ensures
        sum_cnt(s, shift, bmax, i + 1) == sum_cnt(s, shift, bmax, i)
            + (if byte_at(s[i], shift) < bmax { 1int } else { 0int }),
    decreases bmax,
{
    if bmax > 0 {
        lemma_sum_cnt_step(s, shift, bmax - 1, i);
        let t: u64 = (bmax - 1) as u64;
        assert(sum_cnt(s, shift, bmax, i + 1) == sum_cnt(s, shift, bmax - 1, i + 1) + cnt(
            s,
            shift,
            t,
            i + 1,
        ));
        assert(cnt(s, shift, t, i + 1) == cnt(s, shift, t, i) + (if byte_at(s[i], shift) == t {
            1int
        } else {
            0int
        }));
        assert(byte_at(s[i], shift) < bmax <==> (byte_at(s[i], shift) < bmax - 1 || byte_at(
            s[i],
            shift,
        ) == t));
    }
}

proof fn lemma_sum_cnt_zero(s: Seq<u64>, shift: u64, b: int)
    requires
        b >= 0,
    ensures
        sum_cnt(s, shift, b, 0) == 0,
    decreases b,
{
    if b > 0 {
        lemma_sum_cnt_zero(s, shift, b - 1);
    }
}

proof fn lemma_sum_cnt_total(s: Seq<u64>, shift: u64, i: int)
    requires
        0 <= i <= s.len(),
    ensures
        sum_cnt(s, shift, 256, i) == i,
    decreases i,
{
    if i == 0 {
        lemma_sum_cnt_zero(s, shift, 256);
    }
    if i > 0 {
        lemma_sum_cnt_total(s, shift, i - 1);
        lemma_byte_at_bound(s[i - 1], shift);
        lemma_sum_cnt_step(s, shift, 256, i - 1);
    }
}

proof fn lemma_sum_cnt_mono_b(s: Seq<u64>, shift: u64, b1: int, b2: int, i: int)
    requires
        0 <= b1 <= b2,
        i >= 0,
    ensures
        sum_cnt(s, shift, b1, i) <= sum_cnt(s, shift, b2, i),
    decreases b2,
{
    if b2 > b1 {
        lemma_sum_cnt_mono_b(s, shift, b1, b2 - 1, i);
        lemma_cnt_bounds(s, shift, (b2 - 1) as u64, i);
    }
}

proof fn lemma_bs_bounds(s: Seq<u64>, shift: u64, b1: int, b2: int)
    requires
        0 <= b1 <= b2 <= 256,
    ensures
        0 <= bucket_start(s, shift, b1) <= bucket_start(s, shift, b2) <= s.len(),
        bucket_start(s, shift, 0) == 0,
        bucket_start(s, shift, 256) == s.len(),
{
    lemma_sum_cnt_mono_b(s, shift, 0, b1, s.len() as int);
    lemma_sum_cnt_mono_b(s, shift, b1, b2, s.len() as int);
    lemma_sum_cnt_mono_b(s, shift, b2, 256, s.len() as int);
    lemma_sum_cnt_total(s, shift, s.len() as int);
}

proof fn lemma_find_bucket(s: Seq<u64>, shift: u64, p: int, b: int) -> (t: int)
    requires
        0 < b <= 256,
        0 <= p < bucket_start(s, shift, b),
    ensures
        0 <= t < b,
        bucket_start(s, shift, t) <= p < bucket_start(s, shift, t + 1),
    decreases b,
{
    if p >= bucket_start(s, shift, b - 1) {
        b - 1
    } else {
        lemma_find_bucket(s, shift, p, b - 1)
    }
}

/// Filtering one byte value out of a sequence sorted on the lower bits
/// yields a run sorted on those lower bits together with that byte.
proof fn lemma_filter_sorted(s: Seq<u64>, shift: u64, t: u64)
    requires
        valid_shift(shift),
        sorted_by_mask(s, pre_mask(shift)),
    ensures
        sorted_by_mask(filter_byte(s, shift, t), post_mask(shift)),
    decreases s.len(),
{
    broadcast use group_filter_ensures;

    if s.len() > 0 {
        let s0 = s.drop_last();
        let e = s.last();
        assert(sorted_by_mask(s0, pre_mask(shift)));
        lemma_filter_sorted(s0, shift, t);
        s0.lemma_filter_push(e, byte_pred(shift, t));
        assert(s0.push(e) =~= s);
        assert(s0.push(e) == s);
        let f = filter_byte(s, shift, t);
        let f0 = filter_byte(s0, shift, t);
        assert forall|i: int, j: int| 0 <= i < j < f.len() implies (f[i] & post_mask(shift))
            <= (f[j] & post_mask(shift)) by {
            if byte_pred(shift, t)(e) && j == f.len() - 1 {
                assert(f == f0.push(e));
                assert(f[j] == e);
                assert(f[i] == f0[i]);
                assert(byte_pred(shift, t)(f0[i]));
                assert(f0.contains(f0[i]));
                s0.lemma_filter_contains_rev(byte_pred(shift, t), f0[i]);
                let w: int = choose|w: int| 0 <= w < s0.len() && s0[w] == f0[i];
                assert(s0[w] == s[w]);
                assert(s[w] & pre_mask(shift) <= s[s.len() - 1] & pre_mask(shift));
                lemma_byte_order_post(f[i], e, shift);
            } else {
                assert(f[i] == f0[i] && f[j] == f0[j]);
                assert(f0[i] & post_mask(shift) <= f0[j] & post_mask(shift));
            }
        }
    } else {
        assert(filter_byte(s, shift, t).len() == 0);
    }
}

proof fn lemma_empty_to_multiset(s: Seq<u64>)
    requires
        s.len() == 0,
    ensures
        s.to_multiset() =~= Multiset::<u64>::empty(),
{
    broadcast use group_to_multiset_ensures;
    broadcast use group_multiset_axioms;

    assert forall|a: u64| s.to_multiset().count(a) == 0 by {
        if s.to_multiset().count(a) > 0 {
            assert(s.contains(a));
        }
    }
}

proof fn lemma_msum_empty(s: Seq<u64>, shift: u64, b: int)
    requires
        s.len() == 0,
        b >= 0,
    ensures
        msum(s, shift, b) =~= Multiset::<u64>::empty(),
    decreases b,
{
    broadcast use group_multiset_axioms;

    if b > 0 {
        lemma_msum_empty(s, shift, b - 1);
        s.lemma_filter_len(byte_pred(shift, (b - 1) as u64));
        lemma_empty_to_multiset(filter_byte(s, shift, (b - 1) as u64));
    }
}

proof fn lemma_msum_push(s0: Seq<u64>, e: u64, shift: u64, b: int)
    requires
        0 <= b <= 256,
    ensures
        msum(s0.push(e), shift, b) =~= (if byte_at(e, shift) < b {
            msum(s0, shift, b).insert(e)
        } else {
            msum(s0, shift, b)
        }),
    decreases b,
{
    broadcast use group_multiset_axioms;
    broadcast use group_to_multiset_ensures;

    if b > 0 {
        lemma_msum_push(s0, e, shift, b - 1);
        let t: u64 = (b - 1) as u64;
        s0.lemma_filter_push(e, byte_pred(shift, t));
        let f0 = filter_byte(s0, shift, t);
        if byte_at(e, shift) == t {
            assert(filter_byte(s0.push(e), shift, t) == f0.push(e));
            assert(f0.push(e).to_multiset() =~= f0.to_multiset().insert(e));
            assert(msum(s0.push(e), shift, b) == msum(s0.push(e), shift, b - 1).add(
                filter_byte(s0.push(e), shift, t).to_multiset(),
            ));
            assert(msum(s0.push(e), shift, b - 1) == msum(s0, shift, b - 1));
            assert(msum(s0.push(e), shift, b) =~= msum(s0, shift, b - 1).add(
                f0.to_multiset().insert(e),
            ));
            assert(msum(s0, shift, b - 1).add(f0.to_multiset().insert(e)) =~= msum(
                s0,
                shift,
                b,
            ).insert(e));
        } else {
            assert(filter_byte(s0.push(e), shift, t) == f0);
            if byte_at(e, shift) < b - 1 {
                assert(msum(s0.push(e), shift, b) =~= msum(s0, shift, b - 1).insert(e).add(
                    f0.to_multiset(),
                ));
                assert(msum(s0, shift, b - 1).insert(e).add(f0.to_multiset()) =~= msum(
                    s0,
                    shift,
                    b,
                ).insert(e));
            }
        }
    }
}

proof fn lemma_msum_total(s: Seq<u64>, shift: u64)
    ensures
        msum(s, shift, 256) =~= s.to_multiset(),
    decreases s.len(),
{
    broadcast use group_to_multiset_ensures;
    broadcast use group_multiset_axioms;

    if s.len() == 0 {
        lemma_msum_empty(s, shift, 256);
        lemma_empty_to_multiset(s);
    } else {
        let s0 = s.drop_last();
        let e = s.last();
        lemma_msum_total(s0, shift);
        lemma_byte_at_bound(e, shift);
        lemma_msum_push(s0, e, shift, 256);
        assert(s =~= s0.push(e));
        assert(s0.push(e).to_multiset() =~= s0.to_multiset().insert(e));
    }
}

#[verifier::rlimit(30)]
proof fn lemma_prefix_msum(src: Seq<u64>, dst: Seq<u64>, shift: u64, b: int)
    requires
        0 <= b <= 256,
        dst.len() == src.len(),
        forall|t: int|
            #![trigger bucket_start(src, shift, t)]
            0 <= t < 256 ==> dst.subrange(
                bucket_start(src, shift, t),
                bucket_start(src, shift, t + 1),
            ) == filter_byte(src, shift, t as u64),
    ensures
        dst.subrange(0, bucket_start(src, shift, b)).to_multiset() =~= msum(src, shift, b),
    decreases b,
{
    if b == 0 {
        lemma_bs_bounds(src, shift, 0, 0);
        lemma_empty_to_multiset(dst.subrange(0, 0));
    } else {
        lemma_prefix_msum(src, dst, shift, b - 1);
        lemma_bs_bounds(src, shift, b - 1, b);
        let part1 = dst.subrange(0, bucket_start(src, shift, b - 1));
        let part2 = dst.subrange(bucket_start(src, shift, b - 1), bucket_start(src, shift, b));
        assert(dst.subrange(0, bucket_start(src, shift, b)) =~= part1 + part2);
        lemma_multiset_commutative(part1, part2);
        assert(part2 == filter_byte(src, shift, (b - 1) as u64));
    }
}

/// From exact bucket regions to the two pass postconditions: the output is
/// a permutation of the input and is sorted on the extended mask.
proof fn lemma_pass_post(src: Seq<u64>, dst: Seq<u64>, shift: u64)
    requires
        valid_shift(shift),
        sorted_by_mask(src, pre_mask(shift)),
        dst.len() == src.len(),
        forall|t: int|
            #![trigger bucket_start(src, shift, t)]
            0 <= t < 256 ==> dst.subrange(
                bucket_start(src, shift, t),
                bucket_start(src, shift, t + 1),
            ) == filter_byte(src, shift, t as u64),
    ensures
        dst.to_multiset() == src.to_multiset(),
        sorted_by_mask(dst, post_mask(shift)),
{
    broadcast use group_filter_ensures;

    lemma_prefix_msum(src, dst, shift, 256);
    lemma_msum_total(src, shift);
    lemma_bs_bounds(src, shift, 0, 256);
    assert(dst.subrange(0, bucket_start(src, shift, 256)) =~= dst);
    assert(dst.to_multiset() =~= src.to_multiset());
    assert forall|p: int, q: int| 0 <= p < q < dst.len() implies (dst[p] & post_mask(shift))
        <= (dst[q] & post_mask(shift)) by {
        let tp = lemma_find_bucket(src, shift, p, 256);
        let tq = lemma_find_bucket(src, shift, q, 256);
        lemma_bs_bounds(src, shift, tp, tp + 1);
        lemma_bs_bounds(src, shift, tq, tq + 1);
        let fp = filter_byte(src, shift, tp as u64);
        let fq = filter_byte(src, shift, tq as u64);
        assert(dst[p] == fp[p - bucket_start(src, shift, tp)]);
        assert(dst[q] == fq[q - bucket_start(src, shift, tq)]);
        assert(byte_pred(shift, tp as u64)(dst[p]));
        assert(byte_pred(shift, tq as u64)(dst[q]));
        if tp == tq {
            lemma_filter_sorted(src, shift, tp as u64);
            assert((fp[p - bucket_start(src, shift, tp)] & post_mask(shift)) <= (fp[q
                - bucket_start(src, shift, tp)] & post_mask(shift)));
        } else {
            if tq < tp {
                lemma_bs_bounds(src, shift, tq + 1, tp);
                assert(false);
            }
            lemma_byte_order_post(dst[p], dst[q], shift);
        }
    }
}

/// One write of the scatter phase keeps every bucket region equal to the
/// filtered prefix of the source.
proof fn lemma_scatter_step(
    src: Seq<u64>,
    dst_old: Seq<u64>,
    dst_new: Seq<u64>,
    shift: u64,
    i: int,
    j: u64,
)
    requires
        0 <= i < src.len(),
        dst_old.len() == src.len(),
        j == byte_at(src[i], shift),
        dst_new == dst_old.update(
            bucket_start(src, shift, j as int) + cnt(src, shift, j, i),
            src[i],
        ),
        forall|t: int|
            #![trigger bucket_start(src, shift, t)]
            0 <= t < 256 ==> dst_old.subrange(
                bucket_start(src, shift, t),
                bucket_start(src, shift, t) + cnt(src, shift, t as u64, i),
            ) == filter_byte(src.subrange(0, i), shift, t as u64),
    ensures
        forall|t: int|
            #![trigger bucket_start(src, shift, t)]
            0 <= t < 256 ==> dst_new.subrange(
                bucket_start(src, shift, t),
                bucket_start(src, shift, t) + cnt(src, shift, t as u64, i + 1),
            ) == filter_byte(src.subrange(0, i + 1), shift, t as u64),
{
    lemma_byte_at_bound(src[i], shift);
    let jj = j as int;
    let c = cnt(src, shift, j, i);
    let p0 = bucket_start(src, shift, jj) + c;
    lemma_cnt_bounds(src, shift, j, i);
    lemma_cnt_mono(src, shift, j, i + 1, src.len() as int);
    lemma_bs_bounds(src, shift, jj, jj + 1);
    assert(bucket_start(src, shift, jj + 1) == bucket_start(src, shift, jj) + cnt(
        src,
        shift,
        j,
        src.len() as int,
    ));
    assert(cnt(src, shift, j, i + 1) == c + 1);
    assert(p0 < bucket_start(src, shift, jj + 1));
    assert(0 <= p0 < dst_old.len());
    let prefix = src.subrange(0, i);
    assert(src.subrange(0, i + 1) =~= prefix.push(src[i]));
    assert forall|t: int|
        #![trigger bucket_start(src, shift, t)]
        0 <= t < 256 implies dst_new.subrange(
        bucket_start(src, shift, t),
        bucket_start(src, shift, t) + cnt(src, shift, t as u64, i + 1),
    ) == filter_byte(src.subrange(0, i + 1), shift, t as u64) by {
        prefix.lemma_filter_push(src[i], byte_pred(shift, t as u64));
        let bs = bucket_start(src, shift, t);
        lemma_bs_bounds(src, shift, t, t + 1);
        lemma_cnt_bounds(src, shift, t as u64, i);
        lemma_cnt_mono(src, shift, t as u64, i, src.len() as int);
        if t == jj {
            assert(dst_new.subrange(bs, bs + c + 1) =~= dst_old.subrange(bs, bs + c).push(
                src[i],
            ));
            assert(filter_byte(src.subrange(0, i + 1), shift, t as u64) == filter_byte(
                prefix,
                shift,
                t as u64,
            ).push(src[i]));
        } else {
            assert(cnt(src, shift, t as u64, i + 1) == cnt(src, shift, t as u64, i));
            assert(filter_byte(src.subrange(0, i + 1), shift, t as u64) == filter_byte(
                prefix,
                shift,
                t as u64,
            ));
            if t < jj {
                lemma_bs_bounds(src, shift, t + 1, jj);
                assert(bs + cnt(src, shift, t as u64, i) <= bucket_start(src, shift, t + 1));
            } else {
                lemma_bs_bounds(src, shift, jj + 1, t);
                assert(p0 < bucket_start(src, shift, t));
            }
            assert(dst_new.subrange(bs, bs + cnt(src, shift, t as u64, i)) =~= dst_old.subrange(
                bs,
                bs + cnt(src, shift, t as u64, i),
            ));
        }
    }
}

/// One stable counting-sort pass over the byte at `shift`: count each byte
/// value, turn the counts into bucket offsets by an exclusive prefix sum,
/// then scatter the entries into `dst` in source order.
#[verifier::loop_isolation(false)]
fn radix_sort_pass(src: &Vec<u64>, dst: &mut Vec<u64>, shift: u64)
    requires
        old(dst).len() == src.len(),
        valid_shift(shift),
        sorted_by_mask(src@, pre_mask(shift)),
    ensures
        final(dst).len() == src.len(),
        final(dst)@.to_multiset() == src@.to_multiset(),
        sorted_by_mask(final(dst)@, post_mask(shift)),
{
    let len: usize = src.len();
    let mut index: Vec<usize> = Vec::new();
    let mut b: usize = 0;
    while b < 256
        invariant
            b <= 256,
            index.len() == b,
            forall|t: int| 0 <= t < b ==> index@[t] == 0,
        decreases 256 - b,
    {
        index.push(0);
        b = b + 1;
    }
    let mut i: usize = 0;
    while i < len
        invariant
            i <= len,
            index.len() == 256,
            forall|t: int| 0 <= t < 256 ==> index@[t] == cnt(src@, shift, t as u64, i as int),
        decreases len - i,
    {
        let e: u64 = src[i];
        let j: usize = ((e >> shift) & 0xff) as usize;
        proof {
            assert(((e >> shift) & 0xff) < 256) by (bit_vector);
            assert(j as u64 == byte_at(e, shift));
            lemma_cnt_bounds(src@, shift, j as u64, i as int);
        }
        let c: usize = index[j];
        index[j] = c + 1;
        i = i + 1;
    }
    let mut next_index: usize = 0;
    let mut b: usize = 0;
    while b < 256
        invariant
            b <= 256,
            index.len() == 256,
            next_index == sum_cnt(src@, shift, b as int, len as int),
            forall|t: int| 0 <= t < b ==> index@[t] == bucket_start(src@, shift, t),
            forall|t: int|
                b <= t < 256 ==> index@[t] == cnt(src@, shift, t as u64, len as int),
        decreases 256 - b,
    {
        let c: usize = index[b];
        index[b] = next_index;
        proof {
            lemma_sum_cnt_mono_b(src@, shift, b as int + 1, 256, len as int);
            lemma_sum_cnt_total(src@, shift, len as int);
        }
        next_index = next_index + c;
        b = b + 1;
    }
    let mut i: usize = 0;
    proof {
        assert forall|t: int|
            #![trigger bucket_start(src@, shift, t)]
            0 <= t < 256 implies dst@.subrange(
            bucket_start(src@, shift, t),
            bucket_start(src@, shift, t) + cnt(src@, shift, t as u64, 0),
        ) == filter_byte(src@.subrange(0, 0), shift, t as u64) by {
            lemma_bs_bounds(src@, shift, t, t);
            let pre = src@.subrange(0, 0);
            pre.lemma_filter_len(byte_pred(shift, t as u64));
            assert(dst@.subrange(
                bucket_start(src@, shift, t),
                bucket_start(src@, shift, t),
            ) =~= filter_byte(pre, shift, t as u64));
        }
    }
    while i < len
        invariant
            i <= len,
            index.len() == 256,
            dst.len() == len,
            forall|t: int|
                #![trigger index@[t]]
                0 <= t < 256 ==> index@[t] == bucket_start(src@, shift, t) + cnt(
                    src@,
                    shift,
                    t as u64,
                    i as int,
                ),
            forall|t: int|
                #![trigger bucket_start(src@, shift, t)]
                0 <= t < 256 ==> dst@.subrange(
                    bucket_start(src@, shift, t),
                    bucket_start(src@, shift, t) + cnt(src@, shift, t as u64, i as int),
                ) == filter_byte(src@.subrange(0, i as int), shift, t as u64),
        decreases len - i,
    {
        let e: u64 = src[i];
        let j: usize = ((e >> shift) & 0xff) as usize;
        proof {
            assert(((e >> shift) & 0xff) < 256) by (bit_vector);
            assert(j as u64 == byte_at(e, shift));
            lemma_cnt_bounds(src@, shift, j as u64, i as int);
            lemma_cnt_mono(src@, shift, j as u64, i as int + 1, len as int);
            lemma_bs_bounds(src@, shift, j as int, j as int + 1);
            assert(bucket_start(src@, shift, j as int + 1) == bucket_start(src@, shift, j as int)
                + cnt(src@, shift, j as u64, len as int));
        }
        let pos: usize = index[j];
        proof {
            assert(pos < len);
        }
        let ghost dst_old: Seq<u64> = dst@;
        dst[pos] = e;
        index[j] = pos + 1;
        proof {
            lemma_scatter_step(src@, dst_old, dst@, shift, i as int, j as u64);
        }
        i = i + 1;
    }
    proof {
        assert forall|t: int|
            #![trigger bucket_start(src@, shift, t)]
            0 <= t < 256 implies dst@.subrange(
            bucket_start(src@, shift, t),
            bucket_start(src@, shift, t + 1),
        ) == filter_byte(src@, shift, t as u64) by {
            assert(bucket_start(src@, shift, t + 1) == bucket_start(src@, shift, t) + cnt(
                src@,
                shift,
                t as u64,
                len as int,
            ));
            assert(src@.subrange(0, len as int) =~= src@);
        }
        lemma_pass_post(src@, dst@, shift);
    }
}

/// Sorts the entries of `vec` ascending by their low 24 bits, using `tmp`
/// as the scratch buffer of the three counting-sort passes. The result is
/// a permutation of the input; bits above the value field travel unchanged
/// with their entry.
#[verifier::loop_isolation(false)]
pub fn radix_sort(vec: &mut Vec<u64>, tmp: &mut Vec<u64>)
    requires
        old(tmp).len() == old(vec).len(),
    ensures
        final(vec).len() == old(vec).len(),
        final(tmp).len() == old(tmp).len(),
        final(vec)@.to_multiset() == old(vec)@.to_multiset(),
        sorted_by_mask(final(vec)@, 0xffffff),
{
    proof {
        lemma_mask_zero_sorted(vec@);
    }
    radix_sort_pass(vec, tmp, 0);
    radix_sort_pass(tmp, vec, 8);
    radix_sort_pass(vec, tmp, 16);
    let len: usize = vec.len();
    let mut i: usize = 0;
    while i < len
        invariant
            i <= len,
            vec.len() == len,
            forall|t: int| 0 <= t < i ==> vec@[t] == tmp@[t],
        decreases len - i,
    {
        vec[i] = tmp[i];
        i = i + 1;
    }
    proof {
        assert(vec@ =~= tmp@);
    }
}

/// The value sequence of a table: each entry's low 24 bits, in order.
pub open spec fn values_of(s: Seq<u64>) -> Seq<u64> {
    s.map_values(|e: u64| e & 0xffffff)
}

proof fn lemma_values_multiset(x: Seq<u64>, y: Seq<u64>)
    requires
        x.to_multiset() == y.to_multiset(),
    ensures
        values_of(x).to_multiset() == values_of(y).to_multiset(),
    decreases x.len(),
{
    broadcast use group_to_multiset_ensures;
    broadcast use group_multiset_axioms;

    if x.len() == 0 {
        assert(x.to_multiset().len() == x.len());
        assert(y.to_multiset().len() == y.len());
        assert(y.len() == 0);
        assert(values_of(x) =~= values_of(y));
    } else {
        let e = x.last();
        let v: u64 = e & 0xffffff;
        let x0 = x.drop_last();
        assert(x.contains(e));
        assert(x.to_multiset().count(e) > 0);
        assert(y.to_multiset().count(e) > 0);
        assert(y.contains(e));
        let i = choose|i: int| 0 <= i < y.len() && y[i] == e;
        let y0 = y.remove(i);
        assert(x.remove(x.len() - 1).to_multiset() == x.to_multiset().remove(e));
        assert(x0 =~= x.remove(x.len() - 1));
        assert(y0.to_multiset() == y.to_multiset().remove(e));
        lemma_values_multiset(x0, y0);
        assert(values_of(x) =~= values_of(x0).push(v));
        assert(values_of(x).to_multiset() == values_of(x0).to_multiset().insert(v));
        assert(values_of(y).remove(i) =~= values_of(y0));
        assert(values_of(y).remove(i).to_multiset() == values_of(y).to_multiset().remove(
            values_of(y)[i],
        ));
        assert(values_of(y)[i] == v);
        assert(0 <= i < values_of(y).len());
        assert(values_of(y).contains(values_of(y)[i]));
        assert(values_of(y).to_multiset().count(v) > 0);
        assert(values_of(y).to_multiset() =~= values_of(y0).to_multiset().insert(v));
    }
}

/// Tie-order independence: two value-sorted tables holding one and the
/// same multiset of entries agree on the value field at every position, so
/// the sorted value sequence does not depend on the input arrangement.
pub proof fn lemma_sorted_values_unique(x: Seq<u64>, y: Seq<u64>)
    requires
        sorted_by_mask(x, 0xffffff),
        sorted_by_mask(y, 0xffffff),
        x.to_multiset() == y.to_multiset(),
    ensures
        values_of(x) == values_of(y),
{
    let leq = |a: u64, b: u64| a <= b;
    lemma_values_multiset(x, y);
    assert forall|i: int, j: int| 0 <= i < j < values_of(x).len() implies #[trigger] leq(
        values_of(x)[i],
        values_of(x)[j],
    ) by {
        assert((x[i] & 0xffffff) <= (x[j] & 0xffffff));
    }
    assert forall|i: int, j: int| 0 <= i < j < values_of(y).len() implies #[trigger] leq(
        values_of(y)[i],
        values_of(y)[j],
    ) by {
        assert((y[i] & 0xffffff) <= (y[j] & 0xffffff));
    }
    assert(sorted_by(values_of(x), leq));
    assert(sorted_by(values_of(y), leq));
    assert forall|a: u64, b: u64| #[trigger] leq(a, b) || #[trigger] leq(b, a) by {}
    assert(total_ordering(leq));
    lemma_sorted_unique(values_of(x), values_of(y), leq);
    assert(values_of(x) =~= values_of(y));
}

} // verus!
