//! What reading gives back of a file that the writer made.
use vstd::prelude::*;

use crate::error::Error;
use crate::reader::{int_at, kv_next, kv_start, KvView, HEADER_SIZE};
use crate::uint32::{le32_at, le_bytes, le_pair_bytes, lemma_le_bytes_decode};
use crate::hash::cdb_hash;
use vstd::arithmetic::div_mod::lemma_small_mod;

use crate::reader::{find_next, find_start, match_spec, FindView, KEYSIZE};
use crate::writer::{
    bucket_total,
    empty_slot,
    lemma_total_mono,
    layout,
    lemma_layout_len,
    lemma_probe_in_range,
    probe_slot,
    slots_bytes,
    tables_bytes,
    buckets_of,
    data_bytes,
    data_end_of,
    file_image,
    header_bytes,
    record_bytes,
    HashPos,
};

verus! {

/// The state of a sequential iteration of `f` after `n` steps.
pub open spec fn kv_run(f: Seq<u8>, n: nat) -> KvView
    decreases n,
{
    if n == 0 {
        kv_start(f)
    } else {
        kv_next(f, kv_run(f, (n - 1) as nat)).1
    }
}

/// Whether every key and value of `rs` has a length that the writer takes.
pub open spec fn lengths_fit(rs: Seq<(Seq<u8>, Seq<u8>)>) -> bool {
    forall|i: int|
        0 <= i < rs.len() ==> #[trigger] rs[i].0.len() < 0xffff_ffff && rs[i].1.len()
            < 0xffff_ffff
}

proof fn lemma_header_start(b: Seq<Seq<HashPos>>, dend: int, i: int)
    requires
        i >= 1,
    ensures
        header_bytes(b, dend, i).len() == 8 * i,
        header_bytes(b, dend, i).subrange(0, 4) == le_bytes(dend as u32),
    decreases i,
{
    if i > 1 {
        lemma_header_start(b, dend, i - 1);
        let h = header_bytes(b, dend, i - 1);
        let pair = le_pair_bytes(
            (dend + 16 * bucket_total(b, i - 1)) as u32,
            (2 * b[i - 1].len()) as u32,
        );
        assert((h + pair).subrange(0, 4) =~= h.subrange(0, 4));
    } else {
        let pair = le_pair_bytes(dend as u32, (2 * b[0].len()) as u32);
        assert(header_bytes(b, dend, 0) =~= Seq::<u8>::empty());
        assert((Seq::<u8>::empty() + pair).subrange(0, 4) =~= le_bytes(dend as u32));
    }
}

proof fn lemma_data_prefix(rs: Seq<(Seq<u8>, Seq<u8>)>, i: int)
    requires
        0 <= i < rs.len(),
    ensures
        data_bytes(rs.subrange(0, i + 1)) == data_bytes(rs.subrange(0, i)) + record_bytes(
            rs[i].0,
            rs[i].1,
        ),
        data_bytes(rs.subrange(0, i + 1)).len() <= data_bytes(rs).len(),
        data_bytes(rs).subrange(0, data_bytes(rs.subrange(0, i + 1)).len() as int) == data_bytes(
            rs.subrange(0, i + 1),
        ),
    decreases rs.len(),
{
    assert(rs.subrange(0, i + 1).drop_last() =~= rs.subrange(0, i));
    if i + 1 == rs.len() {
        assert(rs.subrange(0, i + 1) =~= rs);
        let d = data_bytes(rs);
        assert(d.subrange(0, d.len() as int) =~= d);
    } else {
        let r = rs.drop_last();
        lemma_data_prefix(r, i);
        assert(r.subrange(0, i + 1) =~= rs.subrange(0, i + 1));
        assert(r.subrange(0, i) =~= rs.subrange(0, i));
        let d = data_bytes(r);
        let l = data_bytes(rs.subrange(0, i + 1)).len() as int;
        let last = record_bytes(rs.last().0, rs.last().1);
        assert((d + last).subrange(0, l) =~= d.subrange(0, l));
    }
}

proof fn lemma_record_len(rs: Seq<(Seq<u8>, Seq<u8>)>, i: int)
    requires
        0 <= i < rs.len(),
    ensures
        record_bytes(rs[i].0, rs[i].1).len() == 8 + rs[i].0.len() + rs[i].1.len(),
{
}

#[verifier::rlimit(40)]
proof fn lemma_step(rs: Seq<(Seq<u8>, Seq<u8>)>, i: int)
    requires
        data_end_of(rs) <= 0xffff_ffff,
        lengths_fit(rs),
        rs.len() == 0 || rs.last().0.len() + rs.last().1.len() > 0,
        0 <= i < rs.len(),
        kv_run(file_image(rs), i as nat) == (KvView {
            pos: HEADER_SIZE + data_bytes(rs.subrange(0, i)).len(),
            data_end: data_end_of(rs),
            done: false,
        }),
    ensures
        kv_next(file_image(rs), kv_run(file_image(rs), i as nat)).0 == Some(
            Ok::<(Seq<u8>, Seq<u8>), Error>(rs[i]),
        ),
        kv_run(file_image(rs), (i + 1) as nat) == (KvView {
            pos: HEADER_SIZE + data_bytes(rs.subrange(0, i + 1)).len(),
            data_end: data_end_of(rs),
            done: false,
        }),
{
    let f = file_image(rs);
    let b = buckets_of(rs);
    let dend = data_end_of(rs);
    let h = header_bytes(b, dend, 256);
    let d = data_bytes(rs);
    lemma_header_start(b, dend, 256);
    lemma_data_prefix(rs, i);
    let k = rs[i].0;
    let v = rs[i].1;
    let rec = record_bytes(k, v);
    let q = HEADER_SIZE + data_bytes(rs.subrange(0, i)).len();
    let qd = data_bytes(rs.subrange(0, i)).len() as int;
    assert(rs[i].0.len() < 0xffff_ffff && rs[i].1.len() < 0xffff_ffff);
    // the record lies in the data, right after the ones before it
    assert forall|t: int| 0 <= t < rec.len() implies f[q + t] == rec[t] by {
        assert(f[q + t] == d[qd + t]);
        assert(d.subrange(0, qd + rec.len())[qd + t] == (data_bytes(rs.subrange(0, i)) + rec)[qd
            + t]);
    }
    // and it is not the last thing before the end of the data unless it is
    // the last record, which is more than eight bytes long
    if i + 1 < rs.len() {
        lemma_data_prefix(rs, i + 1);
        lemma_record_len(rs, i + 1);
    }
    assert(q + 8 < dend);
    lemma_le_bytes_decode(k.len() as u32);
    lemma_le_bytes_decode(v.len() as u32);
    assert(le32_at(f, q) == le32_at(le_bytes(k.len() as u32), 0)) by {
        assert forall|t: int| 0 <= t < 4 implies f[q + t] == #[trigger] le_bytes(
            k.len() as u32,
        )[t] by {
            assert(rec[t] == le_bytes(k.len() as u32)[t]);
        }
    }
    assert(le32_at(f, q + 4) == le32_at(le_bytes(v.len() as u32), 0)) by {
        assert forall|t: int| 0 <= t < 4 implies f[q + 4 + t] == #[trigger] le_bytes(v.len() as u32)[t] by {
            assert(rec[4 + t] == le_bytes(v.len() as u32)[t]);
        }
    }
    assert(int_at(f, q) == k.len());
    assert(int_at(f, q + 4) == v.len());
    assert(f.subrange(q + 8, q + 8 + k.len()) =~= k) by {
        assert forall|t: int| 0 <= t < k.len() implies f[q + 8 + t] == #[trigger] k[t] by {
            assert(rec[8 + t] == k[t]);
        }
    }
    assert(f.subrange(q + 8 + k.len(), q + 8 + k.len() + v.len()) =~= v) by {
        assert forall|t: int| 0 <= t < v.len() implies f[q + 8 + k.len() + t] == #[trigger] v[t] by {
            assert(rec[8 + k.len() + t] == v[t]);
        }
    }
}

proof fn lemma_run(rs: Seq<(Seq<u8>, Seq<u8>)>, i: int)
    requires
        data_end_of(rs) <= 0xffff_ffff,
        lengths_fit(rs),
        rs.len() == 0 || rs.last().0.len() + rs.last().1.len() > 0,
        0 <= i <= rs.len(),
    ensures
        kv_run(file_image(rs), i as nat) == (KvView {
            pos: HEADER_SIZE + data_bytes(rs.subrange(0, i)).len(),
            data_end: data_end_of(rs),
            done: false,
        }),
        forall|j: int|
            0 <= j < i ==> kv_next(file_image(rs), #[trigger] kv_run(file_image(rs), j as nat)).0
                == Some(Ok::<(Seq<u8>, Seq<u8>), Error>(rs[j])),
    decreases i,
{
    let f = file_image(rs);
    if i == 0 {
        let b = buckets_of(rs);
        let dend = data_end_of(rs);
        lemma_header_start(b, dend, 256);
        let h = header_bytes(b, dend, 256);
        lemma_le_bytes_decode(dend as u32);
        assert(le32_at(f, 0) == le32_at(le_bytes(dend as u32), 0)) by {
            assert forall|t: int| 0 <= t < 4 implies f[t] == le_bytes(dend as u32)[t] by {
                assert(f[t] == h[t]);
                assert(h.subrange(0, 4)[t] == h[t]);
            }
        }
        assert(rs.subrange(0, 0) =~= Seq::<(Seq<u8>, Seq<u8>)>::empty());
    } else {
        lemma_run(rs, i - 1);
        lemma_step(rs, i - 1);
    }
}

/// Iterating over the file that the writer makes from the records `rs`
/// yields exactly those records, in the order in which they were added,
/// and then ends. This needs the last record to be more than its eight
/// bytes of lengths: iteration stops once fewer than nine bytes of records
/// are left, so a final record with an empty key and an empty value is
/// not read back.
pub proof fn lemma_round_trip(rs: Seq<(Seq<u8>, Seq<u8>)>)
    requires
        data_end_of(rs) <= 0xffff_ffff,
        lengths_fit(rs),
        rs.len() == 0 || rs.last().0.len() + rs.last().1.len() > 0,
    ensures
        forall|i: int|
            0 <= i < rs.len() ==> kv_next(file_image(rs), #[trigger] kv_run(file_image(rs), i as nat)).0
                == Some(Ok::<(Seq<u8>, Seq<u8>), Error>(rs[i])),
        kv_next(file_image(rs), kv_run(file_image(rs), rs.len())).0 is None,
{
    let f = file_image(rs);
    lemma_run(rs, rs.len() as int);
    assert(rs.subrange(0, rs.len() as int) =~= rs);
}

/// Writing again the records that iterating over a file of the writer
/// gives back makes the same file, byte for byte: the records, their order,
/// the subtables and the header all come out the same.
pub proof fn lemma_rewrite_stable(rs: Seq<(Seq<u8>, Seq<u8>)>, back: Seq<(Seq<u8>, Seq<u8>)>)
    requires
        data_end_of(rs) <= 0xffff_ffff,
        lengths_fit(rs),
        rs.len() == 0 || rs.last().0.len() + rs.last().1.len() > 0,
        back.len() == rs.len(),
        forall|i: int|
            0 <= i < back.len() ==> kv_next(file_image(rs), #[trigger] kv_run(file_image(rs), i as nat)).0
                == Some(Ok::<(Seq<u8>, Seq<u8>), Error>(back[i])),
    ensures
        back == rs,
        file_image(back) == file_image(rs),
{
    lemma_round_trip(rs);
    assert forall|i: int| 0 <= i < rs.len() implies back[i] == rs[i] by {
        assert(kv_next(file_image(rs), kv_run(file_image(rs), i as nat)).0 == Some(
            Ok::<(Seq<u8>, Seq<u8>), Error>(rs[i]),
        ));
    }
    assert(back =~= rs);
}


proof fn lemma_header_entry(b: Seq<Seq<HashPos>>, dend: int, i: int, j: int)
    requires
        0 <= j < i,
    ensures
        header_bytes(b, dend, i).len() == 8 * i,
        header_bytes(b, dend, i).subrange(8 * j, 8 * j + 8) == le_pair_bytes(
            (dend + 16 * bucket_total(b, j)) as u32,
            (2 * b[j].len()) as u32,
        ),
    decreases i,
{
    let h = header_bytes(b, dend, i - 1);
    let pair = le_pair_bytes(
        (dend + 16 * bucket_total(b, i - 1)) as u32,
        (2 * b[i - 1].len()) as u32,
    );
    if i > 1 {
        lemma_header_entry(b, dend, i - 1, if j < i - 1 { j } else { 0 });
    } else {
        assert(h =~= Seq::<u8>::empty());
    }
    if j < i - 1 {
        assert((h + pair).subrange(8 * j, 8 * j + 8) =~= h.subrange(8 * j, 8 * j + 8));
    } else {
        assert((h + pair).subrange(8 * j, 8 * j + 8) =~= pair);
    }
}

proof fn lemma_slots_len(t: Seq<HashPos>)
    ensures
        slots_bytes(t).len() == 8 * t.len(),
    decreases t.len(),
{
    if t.len() > 0 {
        lemma_slots_len(t.drop_last());
    }
}

proof fn lemma_slot_bytes(t: Seq<HashPos>, m: int)
    requires
        0 <= m < t.len(),
    ensures
        slots_bytes(t).subrange(8 * m, 8 * m + 8) == le_pair_bytes(t[m].hash, t[m].pos),
    decreases t.len(),
{
    let p = t.drop_last();
    lemma_slots_len(p);
    let pair = le_pair_bytes(t.last().hash, t.last().pos);
    if m < t.len() - 1 {
        lemma_slot_bytes(p, m);
        assert((slots_bytes(p) + pair).subrange(8 * m, 8 * m + 8) =~= slots_bytes(p).subrange(
            8 * m,
            8 * m + 8,
        ));
    } else {
        assert((slots_bytes(p) + pair).subrange(8 * m, 8 * m + 8) =~= pair);
    }
}

proof fn lemma_tables_at(b: Seq<Seq<HashPos>>, i: int, j: int)
    requires
        0 <= j < i,
    ensures
        tables_bytes(b, i).len() == 16 * bucket_total(b, i),
        16 * bucket_total(b, j) + 16 * b[j].len() <= tables_bytes(b, i).len(),
        tables_bytes(b, i).subrange(
            16 * bucket_total(b, j),
            16 * bucket_total(b, j) + 16 * b[j].len(),
        ) == slots_bytes(layout(b[j], (2 * b[j].len()) as int)),
    decreases i,
{
    let prev = tables_bytes(b, i - 1);
    let n = (2 * b[i - 1].len()) as int;
    let last = slots_bytes(layout(b[i - 1], n));
    lemma_slots_len(layout(b[i - 1], n));
    if n > 0 {
        lemma_layout_len(b[i - 1], n);
    } else {
        assert(b[i - 1].len() == 0);
    }
    if i > 1 {
        lemma_tables_at(b, i - 1, if j < i - 1 { j } else { 0 });
    }
    lemma_total_mono(b, 0, j);
    if j < i - 1 {
        lemma_total_mono(b, j + 1, i - 1);
        let lo = 16 * bucket_total(b, j);
        let hi = 16 * bucket_total(b, j) + 16 * b[j].len();
        assert((prev + last).subrange(lo, hi) =~= prev.subrange(lo, hi));
    } else {
        assert(prev.len() == 16 * bucket_total(b, i - 1)) by {
            if i > 1 {
                lemma_tables_at(b, i - 1, 0);
            }
        }
        assert((prev + last).subrange(prev.len() as int, (prev.len() + last.len()) as int) =~= last);
    }
}

proof fn lemma_layout_members(b: Seq<HashPos>, n: int, m: int)
    requires
        n > 0,
        0 <= m < n,
    ensures
        layout(b, n).len() == n,
        layout(b, n)[m] == empty_slot() || exists|j: int| 0 <= j < b.len() && layout(b, n)[m]
            == b[j],
    decreases b.len(),
{
    lemma_layout_len(b, n);
    if b.len() > 0 {
        let p = b.drop_last();
        lemma_layout_members(p, n, m);
        let e = b.last();
        lemma_probe_in_range(layout(p, n), (e.hash as int / 256) % n, n, n as nat);
        let w = probe_slot(layout(p, n), (e.hash as int / 256) % n, n, n as nat);
        if m == w {
            assert(layout(b, n)[m] == b[b.len() - 1]);
        } else {
            assert(layout(b, n)[m] == layout(p, n)[m]);
            if layout(p, n)[m] != empty_slot() {
                let j = choose|j: int| 0 <= j < p.len() && layout(p, n)[m] == p[j];
                assert(b[j] == p[j]);
            }
        }
    }
}

/// The entry that the writer keeps for record `j` of `rs`.
pub open spec fn entry_of(rs: Seq<(Seq<u8>, Seq<u8>)>, j: int) -> HashPos {
    HashPos {
        hash: cdb_hash(rs[j].0),
        pos: (HEADER_SIZE + data_bytes(rs.subrange(0, j)).len()) as u32,
    }
}

proof fn lemma_bucket_members(rs: Seq<(Seq<u8>, Seq<u8>)>, i: int, t: int)
    requires
        0 <= i < 256,
        0 <= t < buckets_of(rs)[i].len(),
    ensures
        buckets_of(rs).len() == 256,
        exists|j: int| 0 <= j < rs.len() && buckets_of(rs)[i][t] == entry_of(rs, j),
    decreases rs.len(),
{
    lemma_buckets_len(rs);
    if rs.len() > 0 {
        let p = rs.drop_last();
        lemma_buckets_len(p);
        let h = cdb_hash(rs.last().0);
        let bi = (h & 0xffu32) as int;
        assert(h & 0xffu32 < 256) by (bit_vector);
        let prev = buckets_of(p);
        if i == bi && t == prev[i].len() {
            assert(rs.subrange(0, rs.len() - 1) =~= p);
            assert(buckets_of(rs)[i][t] == entry_of(rs, rs.len() - 1));
        } else {
            assert(buckets_of(rs)[i][t] == prev[i][t]);
            lemma_bucket_members(p, i, t);
            let j = choose|j: int| 0 <= j < p.len() && prev[i][t] == entry_of(p, j);
            assert(p.subrange(0, j) =~= rs.subrange(0, j));
            assert(entry_of(p, j) == entry_of(rs, j));
        }
    }
}

proof fn lemma_buckets_len(rs: Seq<(Seq<u8>, Seq<u8>)>)
    ensures
        buckets_of(rs).len() == 256,
    decreases rs.len(),
{
    if rs.len() > 0 {
        lemma_buckets_len(rs.drop_last());
        let h = cdb_hash(rs.last().0);
        assert(h & 0xffu32 < 256) by (bit_vector);
    }
}

proof fn lemma_match_exact(f: Seq<u8>, key: Seq<u8>, pos: int, keypos: int)
    requires
        0 <= keypos <= key.len(),
        0 <= pos,
        pos + key.len() - keypos <= f.len(),
    ensures
        match_spec(f, key, pos, keypos) == Ok::<bool, Error>(
            f.subrange(pos, pos + key.len() - keypos) == key.subrange(keypos, key.len() as int),
        ),
    decreases key.len() - keypos,
{
    let rest = key.len() - keypos;
    let whole_f = f.subrange(pos, pos + rest);
    let whole_k = key.subrange(keypos, key.len() as int);
    if keypos >= key.len() {
        assert(whole_f =~= whole_k);
    } else {
        let n = if rest < KEYSIZE {
            rest
        } else {
            KEYSIZE as int
        };
        let win_f = f.subrange(pos, pos + n);
        let win_k = key.subrange(keypos, keypos + n);
        let tail_f = f.subrange(pos + n, pos + rest);
        let tail_k = key.subrange(keypos + n, key.len() as int);
        assert(whole_f =~= win_f + tail_f);
        assert(whole_k =~= win_k + tail_k);
        if win_f != win_k {
            if whole_f == whole_k {
                assert(win_f =~= whole_f.subrange(0, n));
                assert(win_k =~= whole_k.subrange(0, n));
            }
        } else {
            lemma_match_exact(f, key, pos + n, keypos + n);
            if tail_f != tail_k {
                if whole_f == whole_k {
                    assert(tail_f =~= whole_f.subrange(n, rest));
                    assert(tail_k =~= whole_k.subrange(n, rest));
                }
            }
        }
    }
}

/// Whether the file for the records `rs` fits the format: every key and
/// value length fits, and so does the end of the last subtable.
pub open spec fn image_fits(rs: Seq<(Seq<u8>, Seq<u8>)>) -> bool {
    &&& lengths_fit(rs)
    &&& data_end_of(rs) + 16 * bucket_total(buckets_of(rs), 256) <= 0xffff_ffff
}

/// The state of a lookup of `k` in `f` after `t` steps.
pub open spec fn find_run(f: Seq<u8>, k: Seq<u8>, t: nat) -> FindView
    decreases t,
{
    if t == 0 {
        find_start(f, k)
    } else {
        find_next(f, find_run(f, k, (t - 1) as nat)).1
    }
}

/// A lookup state of `k` in the file of `rs`: the subtable of the key's
/// bucket, and a slot inside it unless the lookup has ended.
spec fn lookup_ok(rs: Seq<(Seq<u8>, Seq<u8>)>, k: Seq<u8>, s: FindView) -> bool {
    let b = buckets_of(rs);
    let h = cdb_hash(k);
    let i = (h & 0xffu32) as int;
    &&& s.key == k
    &&& s.khash == h
    &&& s.hpos == data_end_of(rs) + 16 * bucket_total(b, i)
    &&& s.hslots == 2 * b[i].len()
    &&& 0 <= s.kloop
    &&& (s.done || s.kloop >= s.hslots || (s.hpos <= s.kpos < s.hpos + 8 * s.hslots && (s.kpos
        - s.hpos) % 8 == 0))
}

proof fn lemma_decode_at(f: Seq<u8>, q: int, x: u32)
    requires
        0 <= q,
        q + 4 <= f.len(),
        forall|t: int| 0 <= t < 4 ==> f[q + t] == #[trigger] le_bytes(x)[t],
    ensures
        le32_at(f, q) == x,
{
    lemma_le_bytes_decode(x);
    assert(f[q] == le_bytes(x)[0]);
    assert(f[q + 1] == le_bytes(x)[1]);
    assert(f[q + 2] == le_bytes(x)[2]);
    assert(f[q + 3] == le_bytes(x)[3]);
}

proof fn lemma_record_at(rs: Seq<(Seq<u8>, Seq<u8>)>, j: int)
    requires
        0 <= j < rs.len(),
    ensures
        HEADER_SIZE + data_bytes(rs.subrange(0, j)).len() + record_bytes(rs[j].0, rs[j].1).len()
            <= data_end_of(rs),
        forall|t: int|
            0 <= t < record_bytes(rs[j].0, rs[j].1).len() ==> file_image(rs)[HEADER_SIZE
                + data_bytes(rs.subrange(0, j)).len() + t] == #[trigger] record_bytes(
                rs[j].0,
                rs[j].1,
            )[t],
{
    let f = file_image(rs);
    let b = buckets_of(rs);
    let dend = data_end_of(rs);
    lemma_header_start(b, dend, 256);
    lemma_data_prefix(rs, j);
    let d = data_bytes(rs);
    let rec = record_bytes(rs[j].0, rs[j].1);
    let qd = data_bytes(rs.subrange(0, j)).len() as int;
    assert forall|t: int| 0 <= t < rec.len() implies f[HEADER_SIZE + qd + t] == #[trigger] rec[t] by {
        assert(f[HEADER_SIZE + qd + t] == d[qd + t]);
        assert(d.subrange(0, qd + rec.len())[qd + t] == (data_bytes(rs.subrange(0, j)) + rec)[qd
            + t]);
    }
}

proof fn lemma_lookup_start(rs: Seq<(Seq<u8>, Seq<u8>)>, k: Seq<u8>)
    requires
        image_fits(rs),
    ensures
        lookup_ok(rs, k, find_start(file_image(rs), k)),
{
    let f = file_image(rs);
    let b = buckets_of(rs);
    let dend = data_end_of(rs);
    let h = cdb_hash(k);
    let i = (h & 0xffu32) as int;
    assert(h & 0xffu32 < 256) by (bit_vector);
    lemma_buckets_len(rs);
    lemma_header_entry(b, dend, 256, i);
    lemma_total_mono(b, 0, i);
    lemma_total_mono(b, i + 1, 256);
    let hp = dend + 16 * bucket_total(b, i);
    let n = (2 * b[i].len()) as int;
    let hd = header_bytes(b, dend, 256);
    let pair = le_pair_bytes(hp as u32, n as u32);
    assert forall|t: int| 0 <= t < 8 implies f[8 * i + t] == #[trigger] pair[t] by {
        assert(f[8 * i + t] == hd[8 * i + t]);
        assert(hd.subrange(8 * i, 8 * i + 8)[t] == hd[8 * i + t]);
    }
    assert forall|t: int| 0 <= t < 4 implies f[8 * i + t] == #[trigger] le_bytes(hp as u32)[t] by {
        assert(pair[t] == le_bytes(hp as u32)[t]);
    }
    assert forall|t: int| 0 <= t < 4 implies f[8 * i + 4 + t] == #[trigger] le_bytes(
        n as u32,
    )[t] by {
        assert(pair[4 + t] == le_bytes(n as u32)[t]);
    }
    lemma_decode_at(f, 8 * i, hp as u32);
    lemma_decode_at(f, 8 * i + 4, n as u32);
    if n > 0 {
        let m = (h as int / 256) % n;
        assert(0 <= m < n);
        assert(0 <= m * 8 < 8 * n) by (nonlinear_arith)
            requires
                0 <= m < n,
        ;
        lemma_small_mod((m * 8) as nat, 0x1_0000_0000);
        lemma_small_mod((hp + m * 8) as nat, 0x1_0000_0000);
        assert((m * 8) % 8 == 0);
    }
}

#[verifier::rlimit(80)]
proof fn lemma_lookup_step(rs: Seq<(Seq<u8>, Seq<u8>)>, k: Seq<u8>, s: FindView)
    requires
        image_fits(rs),
        lookup_ok(rs, k, s),
    ensures
        lookup_ok(rs, k, find_next(file_image(rs), s).1),
        find_next(file_image(rs), s).0 is None || exists|j: int|
            0 <= j < rs.len() && rs[j].0 == k && find_next(file_image(rs), s).0 == Some(
                Ok::<Seq<u8>, Error>(rs[j].1),
            ),
    decreases s.hslots - s.kloop,
{
    let f = file_image(rs);
    if s.done || s.kloop >= s.hslots {
        return;
    }
    let b = buckets_of(rs);
    let dend = data_end_of(rs);
    let h = cdb_hash(k);
    let i = (h & 0xffu32) as int;
    assert(h & 0xffu32 < 256) by (bit_vector);
    lemma_buckets_len(rs);
    lemma_total_mono(b, 0, i);
    lemma_total_mono(b, i + 1, 256);
    let n = (2 * b[i].len()) as int;
    let hp = s.hpos;
    let m = (s.kpos - hp) / 8;
    assert(s.kpos == hp + 8 * m);
    lemma_layout_members(b[i], n as int, m);
    let tab = layout(b[i], n as int);
    lemma_tables_at(b, 256, i);
    lemma_slot_bytes(tab, m);
    lemma_slots_len(tab);
    lemma_header_start(b, dend, 256);
    let tb = tables_bytes(b, 256);
    let lo = 16 * bucket_total(b, i);
    let sb = slots_bytes(tab);
    let slot = tab[m];
    let pair = le_pair_bytes(slot.hash, slot.pos);
    assert forall|t: int| 0 <= t < 8 implies f[s.kpos + t] == #[trigger] pair[t] by {
        assert(f[s.kpos + t] == tb[lo + 8 * m + t]);
        assert(tb.subrange(lo, lo + 16 * b[i].len())[8 * m + t] == sb[8 * m + t]);
        assert(sb.subrange(8 * m, 8 * m + 8)[t] == sb[8 * m + t]);
    }
    assert forall|t: int| 0 <= t < 4 implies f[s.kpos + t] == #[trigger] le_bytes(slot.hash)[t] by {
        assert(pair[t] == le_bytes(slot.hash)[t]);
    }
    assert forall|t: int| 0 <= t < 4 implies f[s.kpos + 4 + t] == #[trigger] le_bytes(slot.pos)[t] by {
        assert(pair[4 + t] == le_bytes(slot.pos)[t]);
    }
    lemma_decode_at(f, s.kpos, slot.hash);
    lemma_decode_at(f, s.kpos + 4, slot.pos);
    if slot.pos == 0 {
        return;
    }
    // a used slot holds the entry of some record
    let tt = choose|tt: int| 0 <= tt < b[i].len() && tab[m] == b[i][tt];
    lemma_bucket_members(rs, i, tt);
    let j = choose|j: int| 0 <= j < rs.len() && b[i][tt] == entry_of(rs, j);
    lemma_record_at(rs, j);
    let q = HEADER_SIZE + data_bytes(rs.subrange(0, j)).len();
    let rec = record_bytes(rs[j].0, rs[j].1);
    assert(slot.pos as int == q);
    lemma_small_mod((n * 8) as nat, 0x1_0000_0000);
    let hend = hp + (n * 8) % 0x1_0000_0000;
    assert(hend == hp + 8 * n);
    let kpos2 = if s.kpos + 8 == hend {
        hp
    } else {
        s.kpos + 8
    };
    let s2 = FindView { kloop: s.kloop + 1, kpos: kpos2, ..s };
    assert(lookup_ok(rs, k, s2));
    if slot.hash != h {
        lemma_lookup_step(rs, k, s2);
        return;
    }
    assert(rs[j].0.len() < 0xffff_ffff && rs[j].1.len() < 0xffff_ffff);
    assert forall|t: int| 0 <= t < 4 implies f[q + t] == #[trigger] le_bytes(
        rs[j].0.len() as u32,
    )[t] by {
        assert(rec[t] == le_bytes(rs[j].0.len() as u32)[t]);
    }
    assert forall|t: int| 0 <= t < 4 implies f[q + 4 + t] == #[trigger] le_bytes(
        rs[j].1.len() as u32,
    )[t] by {
        assert(rec[4 + t] == le_bytes(rs[j].1.len() as u32)[t]);
    }
    lemma_decode_at(f, q, rs[j].0.len() as u32);
    lemma_decode_at(f, q + 4, rs[j].1.len() as u32);
    if rs[j].0.len() != k.len() {
        lemma_lookup_step(rs, k, s2);
        return;
    }
    lemma_match_exact(f, k, q + 8, 0);
    assert(k.subrange(0, k.len() as int) =~= k);
    let kl = k.len() as int;
    assert(f.subrange(q + 8, q + 8 + kl) =~= rs[j].0) by {
        assert forall|t: int| 0 <= t < kl implies f[q + 8 + t] == #[trigger] rs[j].0[t] by {
            assert(rec[8 + t] == rs[j].0[t]);
        }
    }
    if rs[j].0 != k {
        lemma_lookup_step(rs, k, s2);
        return;
    }
    let vl = rs[j].1.len() as int;
    assert(f.subrange(q + 8 + kl, q + 8 + kl + vl) =~= rs[j].1) by {
        assert forall|t: int| 0 <= t < vl implies f[q + 8 + kl + t] == #[trigger] rs[j].1[t] by {
            assert(rec[8 + kl + t] == rs[j].1[t]);
        }
    }
}

/// Every value that a lookup of `k` yields, at any of its steps, on the
/// file that the writer makes from the records `rs`, is the value of a
/// record whose key is `k`; and such a lookup never reports a malformed
/// file. So a key that no record has yields nothing.
pub proof fn lemma_lookup_sound(rs: Seq<(Seq<u8>, Seq<u8>)>, k: Seq<u8>, t: nat)
    requires
        image_fits(rs),
    ensures
        find_next(file_image(rs), find_run(file_image(rs), k, t)).0 is None || exists|j: int|
            0 <= j < rs.len() && rs[j].0 == k && find_next(
                file_image(rs),
                find_run(file_image(rs), k, t),
            ).0 == Some(Ok::<Seq<u8>, Error>(rs[j].1)),
{
    lemma_lookup_run(rs, k, t);
    lemma_lookup_step(rs, k, find_run(file_image(rs), k, t));
}

proof fn lemma_lookup_run(rs: Seq<(Seq<u8>, Seq<u8>)>, k: Seq<u8>, t: nat)
    requires
        image_fits(rs),
    ensures
        lookup_ok(rs, k, find_run(file_image(rs), k, t)),
    decreases t,
{
    if t == 0 {
        lemma_lookup_start(rs, k);
    } else {
        lemma_lookup_run(rs, k, (t - 1) as nat);
        lemma_lookup_step(rs, k, find_run(file_image(rs), k, (t - 1) as nat));
    }
}

} // verus!
