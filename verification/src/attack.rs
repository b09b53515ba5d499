//! The meet-in-the-middle engine: exhaustive encrypt/decrypt dictionaries,
//! a collision scan over the sorted decrypt table, and verification of each
//! value collision against the second known plaintext/ciphertext pair.

use crate::Message;
use crate::decrypt::dec_round;
use crate::decrypt::dec_rounds;
use crate::decrypt::decrypt_spec;
use crate::encrypt::encrypt_spec;
use crate::decrypt::present24_decrypt;
use crate::encrypt::present24_encrypt;
use crate::sort::radix_sort;
use crate::sort::sorted_by_mask;
use crate::utils::generate_round_keys;
use crate::utils::schedule_spec;
use vstd::prelude::*;
use vstd::seq_lib::*;

verus! {

/// Why a run was refused before any work started.
#[derive(Clone, Copy, Debug, PartialEq, Eq, Structural)]
pub enum AttackError {
    /// An invalid worker count: zero workers, or a worker index out of range.
    Config,
    /// Partition bounds outside the 24-bit keyspace, or reversed.
    Range,
}

/// The 24-bit value field of a packed table entry.
pub open spec fn value_of(e: u64) -> u64 {
    e & 0xffffff
}

/// The 24-bit key field of a packed table entry.
pub open spec fn key_of(e: u64) -> u64 {
    (e & 0xffffff000000) >> 24
}

/// Three bytes packed big-endian into the low 24 bits of a word.
pub open spec fn pack3(m: Seq<u8>) -> u64 {
    ((m[0] as u64) << 16) | ((m[1] as u64) << 8) | (m[2] as u64)
}

/// A 24-bit key as its three bytes, most significant first.
pub open spec fn key_bytes(k: u64) -> Seq<u8> {
    seq![((k >> 16) & 0xff) as u8, ((k >> 8) & 0xff) as u8, (k & 0xff) as u8]
}

/// The encrypt-table entry for key `k`: the key above the value
/// `forward(m1, schedule(k))`.
pub open spec fn enc_entry(k: u64, m1: Seq<u8>) -> u64 {
    (k << 24) | pack3(encrypt_spec(m1, schedule_spec(key_bytes(k))))
}

/// The decrypt-table entry for key `k`: the key above the value
/// `inverse(c1, schedule(k))`.
pub open spec fn dec_entry(k: u64, c1: Seq<u8>) -> u64 {
    (k << 24) | pack3(decrypt_spec(c1, schedule_spec(key_bytes(k))))
}

/// The verifier's acceptance test on a candidate pair of entries: the keys
/// also agree on the second known pair, byte for byte.
pub open spec fn verifies(e: u64, d: u64, m2: Seq<u8>, c2: Seq<u8>) -> bool {
    encrypt_spec(m2, schedule_spec(key_bytes(key_of(e)))) == decrypt_spec(
        c2,
        schedule_spec(key_bytes(key_of(d))),
    )
}

/// Some decrypt entry in `[jlo, jhi)` collides with `e` and verifies,
/// yielding the key pair `p`.
pub open spec fn found_for_entry(
    e: u64,
    dec: Seq<u64>,
    m2: Seq<u8>,
    c2: Seq<u8>,
    jlo: int,
    jhi: int,
    p: (u64, u64),
) -> bool {
    exists|j: int|
        #![trigger dec[j]]
        jlo <= j < jhi && value_of(e) == value_of(dec[j]) && verifies(e, dec[j], m2, c2) && p == (
        key_of(e),
        key_of(dec[j]),
        )
}

/// Scanning encrypt entries `[start, end)` against the whole decrypt table
/// reports the key pair `p`.
pub open spec fn found_in_range(
    enc: Seq<u64>,
    dec: Seq<u64>,
    m2: Seq<u8>,
    c2: Seq<u8>,
    start: int,
    end: int,
    p: (u64, u64),
) -> bool {
    exists|i: int, j: int|
        #![trigger enc[i], dec[j]]
        start <= i < end && 0 <= j < dec.len() && value_of(enc[i]) == value_of(dec[j]) && verifies(
            enc[i],
            dec[j],
            m2,
            c2,
        ) && p == (key_of(enc[i]), key_of(dec[j]))
}

/// `p` is a true double-encryption key pair for the two known pairs, with
/// both keys below `count`.
pub open spec fn key_pair_found(
    p: (u64, u64),
    m1: Seq<u8>,
    c1: Seq<u8>,
    m2: Seq<u8>,
    c2: Seq<u8>,
    count: int,
) -> bool {
    &&& 0 <= p.0 < count
    &&& 0 <= p.1 < count
    &&& encrypt_spec(m1, schedule_spec(key_bytes(p.0))) == decrypt_spec(
        c1,
        schedule_spec(key_bytes(p.1)),
    )
    &&& encrypt_spec(m2, schedule_spec(key_bytes(p.0))) == decrypt_spec(
        c2,
        schedule_spec(key_bytes(p.1)),
    )
}

proof fn lemma_entry_fields(k: u64, v: u64)
    requires
        k < 0x1000000,
        v < 0x1000000,
    ensures
        key_of((k << 24) | v) == k,
        value_of((k << 24) | v) == v,
{
    assert(((((k << 24) | v) & 0xffffff000000) >> 24) == k && (((k << 24) | v) & 0xffffff) == v)
        by (bit_vector)
        requires
            k < 0x1000000,
            v < 0x1000000,
    ;
}

proof fn lemma_pack3_bound(m: Seq<u8>)
    ensures
        pack3(m) < 0x1000000,
{
    let a: u8 = m[0];
    let b: u8 = m[1];
    let c: u8 = m[2];
    assert((((a as u64) << 16) | ((b as u64) << 8) | (c as u64)) < 0x1000000) by (bit_vector);
}

proof fn lemma_pack3_injective(x: Seq<u8>, y: Seq<u8>)
    requires
        x.len() == 3,
        y.len() == 3,
        pack3(x) == pack3(y),
    ensures
        x == y,
{
    let a: u8 = x[0];
    let b: u8 = x[1];
    let c: u8 = x[2];
    let d: u8 = y[0];
    let e: u8 = y[1];
    let f: u8 = y[2];
    assert((((a as u64) << 16) | ((b as u64) << 8) | (c as u64)) == (((d as u64) << 16) | ((
    e as u64) << 8) | (f as u64)) ==> a == d && b == e && c == f) by (bit_vector);
    assert(x =~= y);
}

proof fn lemma_key_bytes_pack(k: u64)
    requires
        k < 0x1000000,
    ensures
        pack3(key_bytes(k)) == k,
{
    assert((((((k >> 16) & 0xff) as u8 as u64) << 16) | (((((k >> 8) & 0xff) as u8) as u64) << 8)
        | (((k & 0xff) as u8) as u64)) == k) by (bit_vector)
        requires
            k < 0x1000000,
    ;
}

proof fn lemma_dec_rounds_len(m: Seq<u8>, rk: Seq<Seq<u8>>, n: nat)
    requires
        m.len() == 3,
    ensures
        dec_rounds(m, rk, n).len() == 3,
    decreases n,
{
    if n > 0 {
        lemma_dec_rounds_len(dec_round(m, rk[n - 1]), rk, (n - 1) as nat);
    }
}

proof fn lemma_cipher_len(m: Seq<u8>, rk: Seq<Seq<u8>>)
    ensures
        encrypt_spec(m, rk).len() == 3,
        decrypt_spec(m, rk).len() == 3,
{
    lemma_dec_rounds_len(crate::encrypt::xor3(m, rk[10]), rk, 10);
}

/// The two dictionaries of the attack, one entry per key: `encrypt` holds
/// `forward(m1, k)` values, `decrypt` holds `inverse(c1, k)` values.
pub struct HashTables {
    pub encrypt: Vec<u64>,
    pub decrypt: Vec<u64>,
}

impl HashTables {
    /// Two empty tables; `size` only pre-allocates.
    pub fn new(size: usize) -> (r: Self)
        ensures
            r.encrypt@.len() == 0,
            r.decrypt@.len() == 0,
    {
        HashTables { encrypt: Vec::with_capacity(size), decrypt: Vec::with_capacity(size) }
    }

    /// Builds both dictionaries for the key subrange `[start, end)`.
    /// Refuses bounds beyond the 24-bit keyspace, or reversed, before any
    /// work starts.
    #[verifier::loop_isolation(false)]
    pub fn generate(start: usize, end: usize, m: &Message, c: &Message) -> (r: Result<
        Self,
        AttackError,
    >)
        ensures
            (start <= end && end <= 0x1000000) <==> r is Ok,
            match r {
                Ok(ht) => {
                    &&& ht.encrypt@.len() == end - start
                    &&& ht.decrypt@.len() == end - start
                    &&& forall|x: int|
                        0 <= x < end - start ==> #[trigger] ht.encrypt@[x] == enc_entry(
                            (start + x) as u64,
                            m@,
                        )
                    &&& forall|x: int|
                        0 <= x < end - start ==> #[trigger] ht.decrypt@[x] == dec_entry(
                            (start + x) as u64,
                            c@,
                        )
                },
                Err(er) => er == AttackError::Range && (end > 0x1000000 || start > end),
            },
    {
        if end > 0x1000000 || start > end {
            return Err(AttackError::Range);
        }
        let mut ht = Self::new(end - start);
        let mut i: usize = start;
        while i < end
            invariant
                start <= i <= end,
                ht.encrypt@.len() == i - start,
                ht.decrypt@.len() == i - start,
                forall|x: int|
                    0 <= x < i - start ==> #[trigger] ht.encrypt@[x] == enc_entry(
                        (start + x) as u64,
                        m@,
                    ),
                forall|x: int|
                    0 <= x < i - start ==> #[trigger] ht.decrypt@[x] == dec_entry(
                        (start + x) as u64,
                        c@,
                    ),
            decreases end - i,
        {
            let kw: u64 = i as u64;
            let k: [u8; 3] = [
                ((kw & 0xff0000) >> 16) as u8,
                ((kw & 0xff00) >> 8) as u8,
                (kw & 0xff) as u8,
            ];
            proof {
                assert(((kw & 0xff0000) >> 16) as u8 == (((kw >> 16) & 0xff) as u8) && ((kw
                    & 0xff00) >> 8) as u8 == (((kw >> 8) & 0xff) as u8)) by (bit_vector);
                assert(k@ =~= key_bytes(kw));
            }
            let entry: u64 = (((k[0] as u64) << 16) | ((k[1] as u64) << 8) | (k[2] as u64)) << 24;
            proof {
                lemma_key_bytes_pack(kw);
                assert(entry == kw << 24);
            }
            let rk = generate_round_keys(k);
            let e = present24_encrypt(*m, rk);
            let d = present24_decrypt(*c, rk);
            let ev: u64 = ((e[0] as u64) << 16) | ((e[1] as u64) << 8) | (e[2] as u64);
            let dv: u64 = ((d[0] as u64) << 16) | ((d[1] as u64) << 8) | (d[2] as u64);
            proof {
                assert(ev == pack3(e@));
                assert(dv == pack3(d@));
                lemma_pack3_bound(e@);
                lemma_pack3_bound(d@);
                assert(kw << 24 | ev == (kw << 24) | ev) by (bit_vector);
            }
            let ee: u64 = entry | ev;
            let dd: u64 = entry | dv;
            proof {
                assert(ee == enc_entry(kw, m@));
                assert(dd == dec_entry(kw, c@));
            }
            ht.encrypt.push(ee);
            ht.decrypt.push(dd);
            i = i + 1;
        }
        Ok(ht)
    }

    /// Appends another pair of dictionaries, as when per-worker build
    /// outputs are merged; arrival order does not matter, since sorting
    /// normalizes it.
    pub fn merge(&mut self, other: &mut HashTables)
        ensures
            final(self).encrypt@ == old(self).encrypt@ + old(other).encrypt@,
            final(self).decrypt@ == old(self).decrypt@ + old(other).decrypt@,
            final(other).encrypt@.len() == 0,
            final(other).decrypt@.len() == 0,
    {
        self.encrypt.append(&mut other.encrypt);
        self.decrypt.append(&mut other.decrypt);
    }

    /// Sorts both dictionaries by their value field, sharing one scratch
    /// buffer; each table afterwards holds the same entries, value-ordered.
    pub fn sort(&mut self)
        requires
            old(self).encrypt@.len() == old(self).decrypt@.len(),
        ensures
            final(self).encrypt@.len() == old(self).encrypt@.len(),
            final(self).decrypt@.len() == old(self).decrypt@.len(),
            final(self).encrypt@.to_multiset() == old(self).encrypt@.to_multiset(),
            final(self).decrypt@.to_multiset() == old(self).decrypt@.to_multiset(),
            sorted_by_mask(final(self).encrypt@, 0xffffff),
            sorted_by_mask(final(self).decrypt@, 0xffffff),
    {
        broadcast use group_to_multiset_ensures;

        let len: usize = self.encrypt.len();
        let mut tmp: Vec<u64> = Vec::with_capacity(len);
        let mut i: usize = 0;
        while i < len
            invariant
                i <= len,
                tmp@.len() == i,
            decreases len - i,
        {
            tmp.push(0);
            i = i + 1;
        }
        radix_sort(&mut self.encrypt, &mut tmp);
        radix_sort(&mut self.decrypt, &mut tmp);
    }

    /// Scans encrypt entries `[start, end)`: for each, finds every decrypt
    /// entry with the same value and keeps the pairs the verifier accepts.
    /// The returned vector holds exactly the verified key pairs of the
    /// scanned range.
    #[verifier::rlimit(50)]
    pub fn attack(&self, start: usize, end: usize, m: &Message, c: &Message) -> (r: Vec<
        (u64, u64),
    >)
        requires
            start <= end <= self.encrypt@.len(),
            sorted_by_mask(self.decrypt@, 0xffffff),
            2 * self.decrypt@.len() <= usize::MAX as int,
        ensures
            forall|p: (u64, u64)| #[trigger]
                r@.contains(p) <==> found_in_range(
                    self.encrypt@,
                    self.decrypt@,
                    m@,
                    c@,
                    start as int,
                    end as int,
                    p,
                ),
    {
        let mut out: Vec<(u64, u64)> = Vec::new();
        let mut i: usize = start;
        while i < end
            invariant
                start <= i <= end,
                end <= self.encrypt@.len(),
                sorted_by_mask(self.decrypt@, 0xffffff),
                2 * self.decrypt@.len() <= usize::MAX as int,
                forall|p: (u64, u64)| #[trigger]
                    out@.contains(p) <==> found_in_range(
                        self.encrypt@,
                        self.decrypt@,
                        m@,
                        c@,
                        start as int,
                        i as int,
                        p,
                    ),
            decreases end - i,
        {
            let e: u64 = self.encrypt[i];
            match find_run(&self.decrypt, e) {
                None => {
                    proof {
                        assert forall|p: (u64, u64)| #[trigger]
                            out@.contains(p) <==> found_in_range(
                                self.encrypt@,
                                self.decrypt@,
                                m@,
                                c@,
                                start as int,
                                i as int + 1,
                                p,
                            ) by {
                            lemma_scan_step_none(
                                self.encrypt@,
                                self.decrypt@,
                                m@,
                                c@,
                                start as int,
                                i as int,
                                p,
                            );
                        }
                    }
                },
                Some((lo, hi)) => {
                    proof {
                        assert forall|jj: int| lo <= jj < hi implies value_of(
                            #[trigger] self.decrypt@[jj],
                        ) == value_of(e) by {}
                    }
                    scan_run(&self.decrypt, e, lo, hi, m, c, &mut out);
                    proof {
                        assert forall|p: (u64, u64)| #[trigger]
                            out@.contains(p) <==> found_in_range(
                                self.encrypt@,
                                self.decrypt@,
                                m@,
                                c@,
                                start as int,
                                i as int + 1,
                                p,
                            ) by {
                            lemma_scan_step_run(
                                self.encrypt@,
                                self.decrypt@,
                                m@,
                                c@,
                                start as int,
                                i as int,
                                lo as int,
                                hi as int,
                                p,
                            );
                        }
                    }
                },
            }
            i = i + 1;
        }
        out
    }
}

/// Feeds every decrypt entry of one duplicate run to the verifier and
/// appends each accepted key pair to `out`.
#[verifier::rlimit(50)]
fn scan_run(
    dec: &Vec<u64>,
    e: u64,
    lo: usize,
    hi: usize,
    m: &Message,
    c: &Message,
    out: &mut Vec<(u64, u64)>,
)
    requires
        lo <= hi <= dec@.len(),
        forall|jj: int| lo <= jj < hi ==> value_of(#[trigger] dec@[jj]) == value_of(e),
    ensures
        forall|p: (u64, u64)| #[trigger]
            final(out)@.contains(p) <==> old(out)@.contains(p) || found_for_entry(
                e,
                dec@,
                m@,
                c@,
                lo as int,
                hi as int,
                p,
            ),
{
    let mut j: usize = lo;
    while j < hi
        invariant
            lo <= j <= hi <= dec@.len(),
            forall|jj: int| lo <= jj < hi ==> value_of(#[trigger] dec@[jj]) == value_of(e),
            forall|p: (u64, u64)| #[trigger]
                out@.contains(p) <==> old(out)@.contains(p) || found_for_entry(
                    e,
                    dec@,
                    m@,
                    c@,
                    lo as int,
                    j as int,
                    p,
                ),
        decreases hi - j,
    {
        let d: u64 = dec[j];
        let cc = check_collision(e, d, m, c);
        let ghost out_prev: Seq<(u64, u64)> = out@;
        match cc {
            Some(pair) => { out.push(pair); },
            None => {},
        }
        proof {
            assert forall|p: (u64, u64)| #[trigger]
                out@.contains(p) <==> old(out)@.contains(p) || found_for_entry(
                    e,
                    dec@,
                    m@,
                    c@,
                    lo as int,
                    j as int + 1,
                    p,
                ) by {
                lemma_entry_step(e, dec@, m@, c@, lo as int, j as int, p);
                if out@ != out_prev {
                    let pair = (key_of(e), key_of(dec@[j as int]));
                    assert(out@ == out_prev.push(pair));
                    assert(out@[out_prev.len() as int] == pair);
                    assert(out@.contains(pair));
                    if p != pair {
                        if out@.contains(p) {
                            let ix = choose|ix: int| 0 <= ix < out@.len() && out@[ix] == p;
                            assert(out_prev[ix] == p);
                            assert(out_prev.contains(p));
                        }
                        if out_prev.contains(p) {
                            let ix = choose|ix: int|
                                0 <= ix < out_prev.len() && out_prev[ix] == p;
                            assert(out@[ix] == p);
                            assert(out@.contains(p));
                        }
                    }
                }
            }
        }
        j = j + 1;
    }
}

proof fn lemma_scan_step_none(
    enc: Seq<u64>,
    dec: Seq<u64>,
    m2: Seq<u8>,
    c2: Seq<u8>,
    start: int,
    i: int,
    p: (u64, u64),
)
    requires
        start <= i < enc.len(),
        forall|j: int| 0 <= j < dec.len() ==> value_of(#[trigger] dec[j]) != value_of(enc[i]),
    ensures
        found_in_range(enc, dec, m2, c2, start, i + 1, p) <==> found_in_range(
            enc,
            dec,
            m2,
            c2,
            start,
            i,
            p,
        ),
{
    if found_in_range(enc, dec, m2, c2, start, i + 1, p) {
        let (ii, jj) = choose|ii: int, jj: int|
            #![trigger enc[ii], dec[jj]]
            start <= ii < i + 1 && 0 <= jj < dec.len() && value_of(enc[ii]) == value_of(dec[jj])
                && verifies(enc[ii], dec[jj], m2, c2) && p == (key_of(enc[ii]), key_of(dec[jj]));
        assert(ii < i);
        assert(found_in_range(enc, dec, m2, c2, start, i, p));
    }
    if found_in_range(enc, dec, m2, c2, start, i, p) {
        let (ii, jj) = choose|ii: int, jj: int|
            #![trigger enc[ii], dec[jj]]
            start <= ii < i && 0 <= jj < dec.len() && value_of(enc[ii]) == value_of(dec[jj])
                && verifies(enc[ii], dec[jj], m2, c2) && p == (key_of(enc[ii]), key_of(dec[jj]));
        assert(found_in_range(enc, dec, m2, c2, start, i + 1, p));
    }
}

proof fn lemma_entry_step(
    e: u64,
    dec: Seq<u64>,
    m2: Seq<u8>,
    c2: Seq<u8>,
    lo: int,
    j: int,
    p: (u64, u64),
)
    requires
        lo <= j < dec.len(),
    ensures
        found_for_entry(e, dec, m2, c2, lo, j + 1, p) <==> (found_for_entry(e, dec, m2, c2, lo, j, p)
            || (value_of(e) == value_of(dec[j]) && verifies(e, dec[j], m2, c2) && p == (
            key_of(e),
            key_of(dec[j]),
            ))),
{
    if found_for_entry(e, dec, m2, c2, lo, j + 1, p) {
        let jj = choose|jj: int|
            #![trigger dec[jj]]
            lo <= jj < j + 1 && value_of(e) == value_of(dec[jj]) && verifies(e, dec[jj], m2, c2)
                && p == (key_of(e), key_of(dec[jj]));
        if jj < j {
            assert(found_for_entry(e, dec, m2, c2, lo, j, p));
        }
    }
    if found_for_entry(e, dec, m2, c2, lo, j, p) {
        let jj = choose|jj: int|
            #![trigger dec[jj]]
            lo <= jj < j && value_of(e) == value_of(dec[jj]) && verifies(e, dec[jj], m2, c2) && p
                == (key_of(e), key_of(dec[jj]));
        assert(found_for_entry(e, dec, m2, c2, lo, j + 1, p));
    }
    if value_of(e) == value_of(dec[j]) && verifies(e, dec[j], m2, c2) && p == (
    key_of(e),
    key_of(dec[j]),
    ) {
        assert(found_for_entry(e, dec, m2, c2, lo, j + 1, p));
    }
}

proof fn lemma_scan_step_run(
    enc: Seq<u64>,
    dec: Seq<u64>,
    m2: Seq<u8>,
    c2: Seq<u8>,
    start: int,
    i: int,
    lo: int,
    hi: int,
    p: (u64, u64),
)
    requires
        start <= i < enc.len(),
        0 <= lo,
        hi <= dec.len(),
        forall|jj: int|
            #![trigger dec[jj]]
            (lo <= jj < hi) <==> (0 <= jj < dec.len() && value_of(dec[jj]) == value_of(enc[i])),
    ensures
        found_in_range(enc, dec, m2, c2, start, i + 1, p) <==> (found_in_range(
            enc,
            dec,
            m2,
            c2,
            start,
            i,
            p,
        ) || found_for_entry(enc[i], dec, m2, c2, lo, hi, p)),
{
    if found_in_range(enc, dec, m2, c2, start, i + 1, p) {
        let (ii, jj) = choose|ii: int, jj: int|
            #![trigger enc[ii], dec[jj]]
            start <= ii < i + 1 && 0 <= jj < dec.len() && value_of(enc[ii]) == value_of(dec[jj])
                && verifies(enc[ii], dec[jj], m2, c2) && p == (key_of(enc[ii]), key_of(dec[jj]));
        if ii < i {
            assert(found_in_range(enc, dec, m2, c2, start, i, p));
        } else {
            assert(lo <= jj < hi);
            assert(found_for_entry(enc[i], dec, m2, c2, lo, hi, p));
        }
    }
    if found_in_range(enc, dec, m2, c2, start, i, p) {
        let (ii, jj) = choose|ii: int, jj: int|
            #![trigger enc[ii], dec[jj]]
            start <= ii < i && 0 <= jj < dec.len() && value_of(enc[ii]) == value_of(dec[jj])
                && verifies(enc[ii], dec[jj], m2, c2) && p == (key_of(enc[ii]), key_of(dec[jj]));
        assert(found_in_range(enc, dec, m2, c2, start, i + 1, p));
    }
    if found_for_entry(enc[i], dec, m2, c2, lo, hi, p) {
        let jj = choose|jj: int|
            #![trigger dec[jj]]
            lo <= jj < hi && value_of(enc[i]) == value_of(dec[jj]) && verifies(
                enc[i],
                dec[jj],
                m2,
                c2,
            ) && p == (key_of(enc[i]), key_of(dec[jj]));
        assert(found_in_range(enc, dec, m2, c2, start, i + 1, p));
    }
}

/// Splitting the scanned range splits the reported set: a pair is found by
/// scanning `[start, end)` exactly when it is found by scanning
/// `[start, mid)` or `[mid, end)`. Hence the set of reported pairs does not
/// depend on how the scan is partitioned among workers.
pub proof fn lemma_scan_split(
    enc: Seq<u64>,
    dec: Seq<u64>,
    m2: Seq<u8>,
    c2: Seq<u8>,
    start: int,
    mid: int,
    end: int,
    p: (u64, u64),
)
    requires
        start <= mid <= end,
    ensures
        found_in_range(enc, dec, m2, c2, start, end, p) <==> (found_in_range(
            enc,
            dec,
            m2,
            c2,
            start,
            mid,
            p,
        ) || found_in_range(enc, dec, m2, c2, mid, end, p)),
{
    if found_in_range(enc, dec, m2, c2, start, end, p) {
        let (ii, jj) = choose|ii: int, jj: int|
            #![trigger enc[ii], dec[jj]]
            start <= ii < end && 0 <= jj < dec.len() && value_of(enc[ii]) == value_of(dec[jj])
                && verifies(enc[ii], dec[jj], m2, c2) && p == (key_of(enc[ii]), key_of(dec[jj]));
        if ii < mid {
            assert(found_in_range(enc, dec, m2, c2, start, mid, p));
        } else {
            assert(found_in_range(enc, dec, m2, c2, mid, end, p));
        }
    }
    if found_in_range(enc, dec, m2, c2, start, mid, p) {
        let (ii, jj) = choose|ii: int, jj: int|
            #![trigger enc[ii], dec[jj]]
            start <= ii < mid && 0 <= jj < dec.len() && value_of(enc[ii]) == value_of(dec[jj])
                && verifies(enc[ii], dec[jj], m2, c2) && p == (key_of(enc[ii]), key_of(dec[jj]));
        assert(found_in_range(enc, dec, m2, c2, start, end, p));
    }
    if found_in_range(enc, dec, m2, c2, mid, end, p) {
        let (ii, jj) = choose|ii: int, jj: int|
            #![trigger enc[ii], dec[jj]]
            mid <= ii < end && 0 <= jj < dec.len() && value_of(enc[ii]) == value_of(dec[jj])
                && verifies(enc[ii], dec[jj], m2, c2) && p == (key_of(enc[ii]), key_of(dec[jj]));
        assert(found_in_range(enc, dec, m2, c2, start, end, p));
    }
}

/// Confirms one value collision against the second known pair: derives both
/// key schedules, evaluates `forward(m2, ke)` and `inverse(c2, kd)`, and
/// accepts exactly when all three bytes agree, yielding the key pair.
pub fn check_collision(e: u64, d: u64, m: &Message, c: &Message) -> (r: Option<(u64, u64)>)
    ensures
        r == if verifies(e, d, m@, c@) {
            Some((key_of(e), key_of(d)))
        } else {
            None::<(u64, u64)>
        },
{
    let ke: u64 = e & 0xffffff000000;
    let kd: u64 = d & 0xffffff000000;
    let k1: [u8; 3] = [(ke >> 40) as u8, (ke >> 32) as u8, (ke >> 24) as u8];
    let k2: [u8; 3] = [(kd >> 40) as u8, (kd >> 32) as u8, (kd >> 24) as u8];
    proof {
        assert((ke >> 40) as u8 == ((((e & 0xffffff000000) >> 24) >> 16) & 0xff) as u8 && (ke
            >> 32) as u8 == ((((e & 0xffffff000000) >> 24) >> 8) & 0xff) as u8 && (ke >> 24) as u8
            == (((e & 0xffffff000000) >> 24) & 0xff) as u8) by (bit_vector)
            requires
                ke == e & 0xffffff000000,
        ;
        assert((kd >> 40) as u8 == ((((d & 0xffffff000000) >> 24) >> 16) & 0xff) as u8 && (kd
            >> 32) as u8 == ((((d & 0xffffff000000) >> 24) >> 8) & 0xff) as u8 && (kd >> 24) as u8
            == (((d & 0xffffff000000) >> 24) & 0xff) as u8) by (bit_vector)
            requires
                kd == d & 0xffffff000000,
        ;
        assert(k1@ =~= key_bytes(key_of(e)));
        assert(k2@ =~= key_bytes(key_of(d)));
    }
    let rk1 = generate_round_keys(k1);
    let rk2 = generate_round_keys(k2);
    let re = present24_encrypt(*m, rk1);
    let rd = present24_decrypt(*c, rk2);
    if (re[0] == rd[0]) && (re[1] == rd[1]) && (re[2] == rd[2]) {
        proof {
            assert(re@ =~= rd@);
        }
        Some(((e & 0xffffff000000) >> 24, (d & 0xffffff000000) >> 24))
    } else {
        proof {
            assert(re@ != rd@);
        }
        None
    }
}

/// Binary search for any index whose value field matches the target's, in a
/// table sorted by value; exclusive upper bound throughout.
#[verifier::loop_isolation(false)]
pub fn binary_search(table: &Vec<u64>, target: u64) -> (r: Option<usize>)
    requires
        sorted_by_mask(table@, 0xffffff),
        2 * table@.len() <= usize::MAX as int,
    ensures
        match r {
            Some(j) => j < table@.len() && value_of(table@[j as int]) == value_of(target),
            None => forall|j: int|
                0 <= j < table@.len() ==> value_of(#[trigger] table@[j]) != value_of(target),
        },
{
    let mut lo: usize = 0;
    let mut hi: usize = table.len();
    let t: u64 = target & 0xffffff;
    while lo < hi
        invariant
            lo <= hi <= table@.len(),
            forall|j: int| 0 <= j < lo ==> (#[trigger] table@[j] & 0xffffff) < t,
            forall|j: int| hi <= j < table@.len() ==> (#[trigger] table@[j] & 0xffffff) > t,
        decreases hi - lo,
    {
        let mid: usize = (hi + lo) / 2;
        let v: u64 = table[mid] & 0xffffff;
        if t == v {
            return Some(mid);
        } else if t > v {
            proof {
                assert forall|j: int| 0 <= j < mid + 1 implies (#[trigger] table@[j] & 0xffffff)
                    < t by {
                    if j < mid {
                        assert((table@[j] & 0xffffff) <= (table@[mid as int] & 0xffffff));
                    }
                }
            }
            lo = mid + 1;
        } else {
            proof {
                assert forall|j: int| mid <= j < table@.len() implies (#[trigger] table@[j]
                    & 0xffffff) > t by {
                    if j > mid {
                        assert((table@[mid as int] & 0xffffff) <= (table@[j] & 0xffffff));
                    }
                }
            }
            hi = mid;
        }
    }
    None
}

/// Locates the whole run of decrypt entries whose value field matches the
/// target's: a binary search for one match, then expansion to both run ends
/// without stepping outside the table. Returns the run as a half-open index
/// range holding exactly the matching indices, or nothing when no entry
/// matches.
#[verifier::loop_isolation(false)]
pub fn find_run(table: &Vec<u64>, target: u64) -> (r: Option<(usize, usize)>)
    requires
        sorted_by_mask(table@, 0xffffff),
        2 * table@.len() <= usize::MAX as int,
    ensures
        match r {
            Some(run) => run.0 < run.1 <= table@.len() && forall|j: int|
                #![trigger table@[j]]
                (run.0 <= j < run.1) <==> (0 <= j < table@.len() && value_of(table@[j])
                    == value_of(target)),
            None => forall|j: int|
                0 <= j < table@.len() ==> value_of(#[trigger] table@[j]) != value_of(target),
        },
{
    let mid: usize = match binary_search(table, target) {
        None => {
            return None;
        },
        Some(m) => m,
    };
    let t: u64 = target & 0xffffff;
    let mut lo: usize = mid;
    while lo > 0 && (table[lo - 1] & 0xffffff) == t
        invariant
            lo <= mid < table@.len(),
            forall|j: int| lo <= j <= mid ==> (#[trigger] table@[j] & 0xffffff) == t,
        decreases lo,
    {
        lo = lo - 1;
    }
    let mut hi: usize = mid + 1;
    while hi < table.len() && (table[hi] & 0xffffff) == t
        invariant
            mid < hi <= table@.len(),
            forall|j: int| mid <= j < hi ==> (#[trigger] table@[j] & 0xffffff) == t,
        decreases table@.len() - hi,
    {
        hi = hi + 1;
    }
    proof {
        assert forall|j: int|
            #![trigger table@[j]]
            (lo as int <= j < hi as int) <==> (0 <= j < table@.len() && value_of(table@[j])
                == value_of(target)) by {
            if 0 <= j < lo {
                assert(lo > 0);
                assert((table@[lo - 1] & 0xffffff) != t);
                assert((table@[lo - 1] & 0xffffff) <= (table@[mid as int] & 0xffffff));
                if j < lo - 1 {
                    assert((table@[j] & 0xffffff) <= (table@[lo - 1] & 0xffffff));
                }
            }
            if hi as int <= j < table@.len() {
                assert((table@[hi as int] & 0xffffff) != t);
                assert((table@[mid as int] & 0xffffff) <= (table@[hi as int] & 0xffffff));
                if j > hi {
                    assert((table@[hi as int] & 0xffffff) <= (table@[j] & 0xffffff));
                }
            }
        }
    }
    Some((lo, hi))
}

/// The key subrange scanned or built by worker `w` of `nb`: contiguous
/// blocks of `n / nb` keys, the last worker absorbing the remainder.
/// Refuses a zero worker count or a worker index out of range.
pub fn partition_bounds(w: usize, nb: usize, n: usize) -> (r: Result<(usize, usize), AttackError>)
    ensures
        (nb >= 1 && w < nb) <==> r is Ok,
        match r {
            Ok(se) => {
                &&& se.0 == w * (n / nb)
                &&& se.1 == (if w == nb - 1 {
                    n as int
                } else {
                    (w + 1) * (n / nb)
                })
                &&& se.0 <= se.1 <= n
            },
            Err(er) => er == AttackError::Config && (nb == 0 || w >= nb),
        },
{
    if nb == 0 || w >= nb {
        return Err(AttackError::Config);
    }
    let q: usize = n / nb;
    proof {
        assert(nb * q <= n) by (nonlinear_arith)
            requires
                nb >= 1,
                q == n as int / nb as int,
        ;
        assert((w + 1) * q <= nb * q) by (nonlinear_arith)
            requires
                w + 1 <= nb,
                q >= 0,
        ;
        assert(w * q <= (w + 1) * q) by (nonlinear_arith)
            requires
                q >= 0,
        ;
    }
    let start: usize = w * q;
    let end: usize = if w == nb - 1 {
        n
    } else {
        (w + 1) * q
    };
    Ok((start, end))
}

/// The whole attack over the keyspace `[0, key_count)`, run sequentially:
/// build both dictionaries, sort them, scan every encrypt entry and verify
/// every value collision. The result holds exactly the key pairs that map
/// `m1` to `c1` and `m2` to `c2` under double encryption, each key drawn
/// from the scanned keyspace. Refuses a keyspace beyond 24 bits.
pub fn present24_attack(m1: &Message, c1: &Message, m2: &Message, c2: &Message, key_count: usize)
    -> (r: Result<Vec<(u64, u64)>, AttackError>)
    ensures
        key_count <= 0x1000000 <==> r is Ok,
        match r {
            Ok(pairs) => forall|p: (u64, u64)| #[trigger]
                pairs@.contains(p) <==> key_pair_found(p, m1@, c1@, m2@, c2@, key_count as int),
            Err(er) => er == AttackError::Range && key_count > 0x1000000,
        },
{
    broadcast use group_to_multiset_ensures;

    let mut ht = match HashTables::generate(0, key_count, m1, c1) {
        Ok(h) => h,
        Err(er) => {
            return Err(er);
        },
    };
    let ghost enc0: Seq<u64> = ht.encrypt@;
    let ghost dec0: Seq<u64> = ht.decrypt@;
    ht.sort();
    let len: usize = ht.encrypt.len();
    let pairs = ht.attack(0, len, m2, c2);
    proof {
        let enc = ht.encrypt@;
        let dec = ht.decrypt@;
        let count = key_count as int;
        assert forall|p: (u64, u64)| #[trigger]
            pairs@.contains(p) <==> key_pair_found(p, m1@, c1@, m2@, c2@, count) by {
            if found_in_range(enc, dec, m2@, c2@, 0, len as int, p) {
                lemma_found_to_pair(enc0, dec0, enc, dec, m1@, c1@, m2@, c2@, count, p);
            }
            if key_pair_found(p, m1@, c1@, m2@, c2@, count) {
                lemma_pair_to_found(enc0, dec0, enc, dec, m1@, c1@, m2@, c2@, count, p);
            }
        }
    }
    Ok(pairs)
}

proof fn lemma_found_to_pair(
    enc0: Seq<u64>,
    dec0: Seq<u64>,
    enc: Seq<u64>,
    dec: Seq<u64>,
    m1: Seq<u8>,
    c1: Seq<u8>,
    m2: Seq<u8>,
    c2: Seq<u8>,
    count: int,
    p: (u64, u64),
)
    requires
        0 <= count <= 0x1000000,
        enc0.len() == count,
        dec0.len() == count,
        forall|x: int| 0 <= x < count ==> #[trigger] enc0[x] == enc_entry(x as u64, m1),
        forall|x: int| 0 <= x < count ==> #[trigger] dec0[x] == dec_entry(x as u64, c1),
        enc.to_multiset() == enc0.to_multiset(),
        dec.to_multiset() == dec0.to_multiset(),
        found_in_range(enc, dec, m2, c2, 0, enc.len() as int, p),
    ensures
        key_pair_found(p, m1, c1, m2, c2, count),
{
    broadcast use group_to_multiset_ensures;

    let (ii, jj) = choose|ii: int, jj: int|
        #![trigger enc[ii], dec[jj]]
        0 <= ii < enc.len() && 0 <= jj < dec.len() && value_of(enc[ii]) == value_of(dec[jj])
            && verifies(enc[ii], dec[jj], m2, c2) && p == (key_of(enc[ii]), key_of(dec[jj]));
    let e: u64 = enc[ii];
    let d: u64 = dec[jj];
    assert(enc.contains(e));
    assert(enc.to_multiset().count(e) > 0);
    assert(enc0.contains(e));
    let x = choose|x: int| 0 <= x < enc0.len() && enc0[x] == e;
    assert(dec.contains(d));
    assert(dec.to_multiset().count(d) > 0);
    assert(dec0.contains(d));
    let y = choose|y: int| 0 <= y < dec0.len() && dec0[y] == d;
    let ev = encrypt_spec(m1, schedule_spec(key_bytes(x as u64)));
    let dv = decrypt_spec(c1, schedule_spec(key_bytes(y as u64)));
    lemma_cipher_len(m1, schedule_spec(key_bytes(x as u64)));
    lemma_cipher_len(c1, schedule_spec(key_bytes(y as u64)));
    lemma_pack3_bound(ev);
    lemma_pack3_bound(dv);
    lemma_entry_fields(x as u64, pack3(ev));
    lemma_entry_fields(y as u64, pack3(dv));
    assert(key_of(e) == x as u64 && value_of(e) == pack3(ev));
    assert(key_of(d) == y as u64 && value_of(d) == pack3(dv));
    lemma_pack3_injective(ev, dv);
    assert(p == (x as u64, y as u64));
}

proof fn lemma_pair_to_found(
    enc0: Seq<u64>,
    dec0: Seq<u64>,
    enc: Seq<u64>,
    dec: Seq<u64>,
    m1: Seq<u8>,
    c1: Seq<u8>,
    m2: Seq<u8>,
    c2: Seq<u8>,
    count: int,
    p: (u64, u64),
)
    requires
        0 <= count <= 0x1000000,
        enc0.len() == count,
        dec0.len() == count,
        forall|x: int| 0 <= x < count ==> #[trigger] enc0[x] == enc_entry(x as u64, m1),
        forall|x: int| 0 <= x < count ==> #[trigger] dec0[x] == dec_entry(x as u64, c1),
        enc.to_multiset() == enc0.to_multiset(),
        dec.to_multiset() == dec0.to_multiset(),
        key_pair_found(p, m1, c1, m2, c2, count),
    ensures
        found_in_range(enc, dec, m2, c2, 0, enc.len() as int, p),
{
    broadcast use group_to_multiset_ensures;

    let ke = p.0;
    let kd = p.1;
    let ev = encrypt_spec(m1, schedule_spec(key_bytes(ke)));
    let dv = decrypt_spec(c1, schedule_spec(key_bytes(kd)));
    assert(enc0[ke as int] == enc_entry(ke, m1));
    assert(dec0[kd as int] == dec_entry(kd, c1));
    assert(enc0.contains(enc_entry(ke, m1)));
    assert(enc0.to_multiset().count(enc_entry(ke, m1)) > 0);
    assert(enc.contains(enc_entry(ke, m1)));
    let ii = choose|ii: int| 0 <= ii < enc.len() && enc[ii] == enc_entry(ke, m1);
    assert(dec0.contains(dec_entry(kd, c1)));
    assert(dec0.to_multiset().count(dec_entry(kd, c1)) > 0);
    assert(dec.contains(dec_entry(kd, c1)));
    let jj = choose|jj: int| 0 <= jj < dec.len() && dec[jj] == dec_entry(kd, c1);
    lemma_pack3_bound(ev);
    lemma_pack3_bound(dv);
    lemma_entry_fields(ke, pack3(ev));
    lemma_entry_fields(kd, pack3(dv));
    assert(key_of(enc[ii]) == ke && value_of(enc[ii]) == pack3(ev));
    assert(key_of(dec[jj]) == kd && value_of(dec[jj]) == pack3(dv));
    assert(ev == dv);
    assert(value_of(enc[ii]) == value_of(dec[jj]));
    assert(verifies(enc[ii], dec[jj], m2, c2));
}

} // verus!
