//! Building a CDB file: records are streamed out as they are added, and
//! the hash subtables and the header are laid out at the end.
use vstd::prelude::*;

use vstd::arithmetic::div_mod::{lemma_mod_self_0, lemma_small_mod};

use crate::error::{err_toobig, Error};
use crate::hash::{cdb_hash, hash};
use crate::reader::HEADER_SIZE;
use crate::uint32::{le_pair_bytes, pack2};

verus! {

/// A record's hash and its offset in the file, kept until the subtables are
/// laid out. An offset of zero marks an empty slot.
#[derive(Clone, Copy, Debug)]
pub struct HashPos {
    pub hash: u32,
    pub pos: u32,
}

impl HashPos {
    /// Stores the hash and then the offset in the first eight bytes of `buf`.
    pub fn pack(&self, buf: &mut [u8])
        requires
            old(buf)@.len() >= 8,
        ensures
            final(buf)@.len() == old(buf)@.len(),
            final(buf)@.subrange(0, 8) == le_pair_bytes(self.hash, self.pos),
            final(buf)@.subrange(8, old(buf)@.len() as int) == old(buf)@.subrange(
                8,
                old(buf)@.len() as int,
            ),
    {
        pack2(buf, self.hash, self.pos);
    }
}

/// The bytes of one record: key length, value length, key, value.
pub open spec fn record_bytes(k: Seq<u8>, v: Seq<u8>) -> Seq<u8> {
    le_pair_bytes(k.len() as u32, v.len() as u32) + k + v
}

/// The bytes of the records, one after the other.
pub open spec fn data_bytes(rs: Seq<(Seq<u8>, Seq<u8>)>) -> Seq<u8>
    decreases rs.len(),
{
    if rs.len() == 0 {
        Seq::empty()
    } else {
        data_bytes(rs.drop_last()) + record_bytes(rs.last().0, rs.last().1)
    }
}

/// A slot that holds nothing.
pub open spec fn empty_slot() -> HashPos {
    HashPos { hash: 0, pos: 0 }
}

/// A subtable of `n` empty slots.
pub open spec fn empty_table(n: nat) -> Seq<HashPos> {
    Seq::new(n, |i: int| empty_slot())
}

/// The slot where an entry lands when probing starts at `w`: the first empty
/// slot going forward and wrapping at `n`, looking at `fuel` slots at most.
pub open spec fn probe_slot(t: Seq<HashPos>, w: int, n: int, fuel: nat) -> int
    decreases fuel,
{
    if fuel <= 1 || t[w].pos == 0 {
        w
    } else {
        probe_slot(t, (w + 1) % n, n, (fuel - 1) as nat)
    }
}

/// `t` with `e` placed in a subtable of `n` slots.
pub open spec fn place(t: Seq<HashPos>, e: HashPos, n: int) -> Seq<HashPos> {
    t.update(probe_slot(t, (e.hash as int / 256) % n, n, n as nat), e)
}

/// The subtable of `n` slots that holds the entries of `b`, placed in order.
pub open spec fn layout(b: Seq<HashPos>, n: int) -> Seq<HashPos>
    decreases b.len(),
{
    if b.len() == 0 {
        empty_table(n as nat)
    } else {
        place(layout(b.drop_last(), n), b.last(), n)
    }
}

/// The bytes of the slots of `t`.
pub open spec fn slots_bytes(t: Seq<HashPos>) -> Seq<u8>
    decreases t.len(),
{
    if t.len() == 0 {
        Seq::empty()
    } else {
        slots_bytes(t.drop_last()) + le_pair_bytes(t.last().hash, t.last().pos)
    }
}

/// The number of entries in the first `i` buckets.
pub open spec fn bucket_total(b: Seq<Seq<HashPos>>, i: int) -> int
    decreases i,
{
    if i <= 0 {
        0
    } else {
        bucket_total(b, i - 1) + b[i - 1].len()
    }
}

/// Twice the size of the largest of the first `i` buckets, and at least one.
pub open spec fn bucket_max(b: Seq<Seq<HashPos>>, i: int) -> int
    decreases i,
{
    if i <= 0 {
        1
    } else {
        let m = bucket_max(b, i - 1);
        if 2 * b[i - 1].len() > m {
            (2 * b[i - 1].len()) as int
        } else {
            m
        }
    }
}

/// The subtables of the first `i` buckets, one after the other; bucket `j`
/// has twice as many slots as entries.
pub open spec fn tables_bytes(b: Seq<Seq<HashPos>>, i: int) -> Seq<u8>
    decreases i,
{
    if i <= 0 {
        Seq::empty()
    } else {
        tables_bytes(b, i - 1) + slots_bytes(layout(b[i - 1], (2 * b[i - 1].len()) as int))
    }
}

/// The first `i` header entries, when the subtables start at `dend`: where
/// each subtable starts, and its number of slots.
pub open spec fn header_bytes(b: Seq<Seq<HashPos>>, dend: int, i: int) -> Seq<u8>
    decreases i,
{
    if i <= 0 {
        Seq::empty()
    } else {
        header_bytes(b, dend, i - 1) + le_pair_bytes(
            (dend + 16 * bucket_total(b, i - 1)) as u32,
            (2 * b[i - 1].len()) as u32,
        )
    }
}

/// The buckets of entries for the records `rs`, written from the end of
/// the header on: each record's hash and offset, in the bucket of the
/// hash's low byte, in the order of the records.
pub open spec fn buckets_of(rs: Seq<(Seq<u8>, Seq<u8>)>) -> Seq<Seq<HashPos>>
    decreases rs.len(),
{
    if rs.len() == 0 {
        Seq::new(256, |i: int| Seq::<HashPos>::empty())
    } else {
        let prev = buckets_of(rs.drop_last());
        let h = cdb_hash(rs.last().0);
        let e = HashPos { hash: h, pos: (HEADER_SIZE + data_bytes(rs.drop_last()).len()) as u32 };
        prev.update((h & 0xffu32) as int, prev[(h & 0xffu32) as int].push(e))
    }
}

/// Where the records `rs` end and the subtables start.
pub open spec fn data_end_of(rs: Seq<(Seq<u8>, Seq<u8>)>) -> int {
    HEADER_SIZE + data_bytes(rs).len()
}

/// The file that the records `rs` make: the header, the records, and the
/// subtables.
pub open spec fn file_image(rs: Seq<(Seq<u8>, Seq<u8>)>) -> Seq<u8> {
    header_bytes(buckets_of(rs), data_end_of(rs), 256) + data_bytes(rs) + tables_bytes(
        buckets_of(rs),
        256,
    )
}

/// Whether the subtables of `b`, starting at `dend`, do not fit the format.
pub open spec fn tables_too_big(b: Seq<Seq<HashPos>>, dend: int) -> bool {
    bucket_max(b, 256) + bucket_total(b, 256) > 0x1fff_ffff || dend + 16 * bucket_total(b, 256)
        > 0xffff_ffff
}

/// Builds a CDB file. Each `add` gives the bytes of one record, to be
/// written after those before; `finish` gives the subtables, to be written
/// last, and the header, to be written over the start of the file.
pub struct CDBMake {
    entries: Vec<Vec<HashPos>>,
    pos: u32,
    records: Ghost<Seq<(Seq<u8>, Seq<u8>)>>,
}

impl CDBMake {
    /// The records added so far.
    pub closed spec fn records(&self) -> Seq<(Seq<u8>, Seq<u8>)> {
        self.records@
    }

    /// Where the next record starts.
    pub closed spec fn pos(&self) -> int {
        self.pos as int
    }

    /// The entries of each of the 256 buckets.
    pub closed spec fn buckets(&self) -> Seq<Seq<HashPos>> {
        self.entries@.map_values(|v: Vec<HashPos>| v@)
    }

    /// The maker's own consistency: 256 buckets, each entry in the bucket of
    /// its hash's low byte and past the header, and the position right after
    /// the records.
    pub closed spec fn wf(&self) -> bool {
        &&& self.entries@.len() == 256
        &&& forall|i: int, j: int|
            0 <= i < 256 && 0 <= j < self.entries@[i]@.len() ==> {
                let e = #[trigger] self.entries@[i]@[j];
                &&& e.pos >= HEADER_SIZE
                &&& (e.hash & 0xffu32) as int == i
            }
        &&& self.pos == HEADER_SIZE + data_bytes(self.records@).len()
        &&& self.entries@.map_values(|v: Vec<HashPos>| v@) == buckets_of(self.records@)
    }

    /// A maker with no records, and the bytes that start the file: a header
    /// of zeros, rewritten by `finish`.
    pub fn new() -> (r: (CDBMake, Vec<u8>))
        ensures
            r.0.wf(),
            r.0.records() == Seq::<(Seq<u8>, Seq<u8>)>::empty(),
            r.0.pos() == HEADER_SIZE,
            r.0.pos() == data_end_of(r.0.records()),
            r.1@ == Seq::new(HEADER_SIZE as nat, |i: int| 0u8),
    {
        let mut entries: Vec<Vec<HashPos>> = Vec::new();
        let mut i: usize = 0;
        while i < 256
            invariant
                i <= 256,
                entries@.len() == i,
                forall|k: int| 0 <= k < i ==> (#[trigger] entries@[k])@.len() == 0,
            decreases 256 - i,
        {
            entries.push(Vec::new());
            i = i + 1;
        }
        let mut head: Vec<u8> = Vec::new();
        let mut j: usize = 0;
        while j < HEADER_SIZE
            invariant
                j <= HEADER_SIZE,
                head@ == Seq::new(j as nat, |i: int| 0u8),
            decreases HEADER_SIZE - j,
        {
            head.push(0u8);
            j = j + 1;
            assert(head@ =~= Seq::new(j as nat, |i: int| 0u8));
        }
        let m = CDBMake { entries, pos: HEADER_SIZE as u32, records: Ghost(Seq::empty()) };
        assert forall|k: int| 0 <= k < 256 implies #[trigger] m.entries@[k]@ == Seq::<
            HashPos,
        >::empty() by {
            assert(m.entries@[k]@ =~= Seq::<HashPos>::empty());
        }
        assert(m.entries@.map_values(|v: Vec<HashPos>| v@) =~= buckets_of(m.records@));
        (m, head)
    }
}

/// Whether a record of key `k` and value `v`, added where the next record
/// starts at `pos`, does not fit the format.
pub open spec fn record_too_big(pos: int, k: Seq<u8>, v: Seq<u8>) -> bool {
    k.len() >= 0xffff_ffff || v.len() >= 0xffff_ffff || pos + 8 + k.len() + v.len() > 0xffff_ffff
}

impl CDBMake {
    /// Adds a record, and gives its bytes, to be written after those that
    /// came before. A key, a value or a file that would not fit 32 bits is
    /// `TooBig`, and leaves the maker as it was.
    pub fn add(&mut self, key: &[u8], data: &[u8]) -> (r: Result<Vec<u8>, Error>)
        requires
            old(self).wf(),
        ensures
            final(self).wf(),
            final(self).pos() == data_end_of(final(self).records()),
            r is Err <==> record_too_big(old(self).pos(), key@, data@),
            r is Err ==> r == Err::<Vec<u8>, Error>(Error::TooBig) && *final(self) == *old(self),
            r matches Ok(bytes) ==> {
                &&& bytes@ == record_bytes(key@, data@)
                &&& final(self).records() == old(self).records().push((key@, data@))
                &&& final(self).pos() == old(self).pos() + bytes@.len()
                &&& final(self).buckets() == old(self).buckets().update(
                    (cdb_hash(key@) & 0xffu32) as int,
                    old(self).buckets()[(cdb_hash(key@) & 0xffu32) as int].push(
                        HashPos { hash: cdb_hash(key@), pos: old(self).pos() as u32 },
                    ),
                )
            },
    {
        if key.len() >= 0xffff_ffff || data.len() >= 0xffff_ffff {
            return err_toobig();
        }
        let klen = key.len() as u32;
        let dlen = data.len() as u32;
        if self.pos as u64 + 8 + klen as u64 + dlen as u64 > 0xffff_ffff {
            return err_toobig();
        }
        let head = pair_bytes(klen, dlen);
        let mut bytes: Vec<u8> = Vec::new();
        append(&mut bytes, &head);
        append(&mut bytes, key);
        append(&mut bytes, data);
        let h = hash(key);
        let b = (h & 0xffu32) as usize;
        assert(h & 0xffu32 < 256) by (bit_vector);
        let ghost old_entries = self.entries@;
        let e = HashPos { hash: h, pos: self.pos };
        self.entries[b].push(e);
        proof {
            let rs = self.records@.push((key@, data@));
            assert(rs.drop_last() =~= self.records@);
            self.records = Ghost(rs);
            assert(self.entries@[b as int]@ == old_entries[b as int]@.push(e));
            assert(forall|i: int| 0 <= i < 256 && i != b ==> self.entries@[i] == old_entries[i]);
        }
        self.pos = self.pos + 8 + klen + dlen;
        proof {
            assert forall|i: int, j: int|
                0 <= i < 256 && 0 <= j < self.entries@[i]@.len() implies {
                    let e = #[trigger] self.entries@[i]@[j];
                    &&& e.pos >= HEADER_SIZE
                    &&& (e.hash & 0xffu32) as int == i
                } by {
                if i != b as int || j < old_entries[i]@.len() {
                    assert(self.entries@[i]@[j] == old_entries[i]@[j]);
                }
            }
            assert(self.buckets() =~= old(self).buckets().update(
                b as int,
                old(self).buckets()[b as int].push(e),
            ));
            assert(self.records@.last().0 == key@);
        }
        Ok(bytes)
    }
}

pub proof fn lemma_total_mono(b: Seq<Seq<HashPos>>, i: int, j: int)
    requires
        0 <= i <= j,
    ensures
        bucket_total(b, i) <= bucket_total(b, j),
    decreases j,
{
    if i < j {
        lemma_total_mono(b, i, j - 1);
    }
}

proof fn lemma_max_bound(b: Seq<Seq<HashPos>>, i: int, k: int)
    requires
        0 <= i < k,
    ensures
        bucket_max(b, k) >= 2 * b[i].len(),
        bucket_max(b, k) >= 1,
    decreases k,
{
    if i < k - 1 {
        lemma_max_bound(b, i, k - 1);
    } else {
        lemma_max_pos(b, k - 1);
    }
}

proof fn lemma_max_pos(b: Seq<Seq<HashPos>>, k: int)
    ensures
        bucket_max(b, k) >= 1,
    decreases k,
{
    if k > 0 {
        lemma_max_pos(b, k - 1);
    }
}

pub proof fn lemma_probe_in_range(t: Seq<HashPos>, w: int, n: int, fuel: nat)
    requires
        0 <= w < n,
    ensures
        0 <= probe_slot(t, w, n, fuel) < n,
    decreases fuel,
{
    if !(fuel <= 1 || t[w].pos == 0) {
        lemma_probe_in_range(t, (w + 1) % n, n, (fuel - 1) as nat);
    }
}

pub proof fn lemma_layout_len(b: Seq<HashPos>, n: int)
    requires
        n > 0,
    ensures
        layout(b, n).len() == n,
    decreases b.len(),
{
    if b.len() > 0 {
        lemma_layout_len(b.drop_last(), n);
        let e = b.last();
        lemma_probe_in_range(layout(b.drop_last(), n), (e.hash as int / 256) % n, n, n as nat);
    }
}

impl CDBMake {
    /// Lays out the subtables and the header. Gives the bytes of the
    /// subtables, to be written after the records, and the header, to be
    /// written over the first bytes of the file. Subtables that would not
    /// fit 32 bits are `TooBig`.
    pub fn finish(self) -> (r: Result<(Vec<u8>, Vec<u8>), Error>)
        requires
            self.wf(),
        ensures
            r is Err <==> tables_too_big(buckets_of(self.records()), data_end_of(self.records())),
            r is Err ==> r == Err::<(Vec<u8>, Vec<u8>), Error>(Error::TooBig),
            r matches Ok(p) ==> {
                &&& p.0@ == tables_bytes(buckets_of(self.records()), 256)
                &&& p.1@ == header_bytes(
                    buckets_of(self.records()),
                    data_end_of(self.records()),
                    256,
                )
            },
    {
        let ghost b = self.buckets();
        let ghost dend = self.pos();
        assert(b.len() == 256);
        assert(b == buckets_of(self.records()));
        assert(dend == data_end_of(self.records()));
        assert(forall|i: int| 0 <= i < 256 ==> #[trigger] b[i] == self.entries@[i]@);
        proof {
            lemma_max_pos(b, 256);
        }
        let mut maxsize: usize = 1;
        let mut count: usize = 0;
        let mut i: usize = 0;
        while i < 256
            invariant
                i <= 256,
                self.entries@.len() == 256,
                b.len() == 256,
                forall|q: int| 0 <= q < 256 ==> #[trigger] b[q] == self.entries@[q]@,
                maxsize == bucket_max(b, i as int),
                count == bucket_total(b, i as int),
                b == buckets_of(self.records()),
                dend == data_end_of(self.records()),
                count <= 0x1fff_ffff,
                maxsize <= 0x3fff_fffe,
                bucket_max(b, 256) >= 1,
            decreases 256 - i,
        {
            let n = self.entries[i].len();
            if n > 0x1fff_ffff {
                proof {
                    lemma_total_mono(b, i + 1, 256);
                    assert(bucket_total(b, i + 1) == bucket_total(b, i as int) + b[i as int].len());
                    assert(b == buckets_of(self.records()));
                }
                return err_toobig();
            }
            if 2 * n > maxsize {
                maxsize = 2 * n;
            }
            count = count + n;
            if count > 0x1fff_ffff {
                proof {
                    lemma_total_mono(b, i + 1, 256);
                    assert(bucket_total(b, i + 1) == bucket_total(b, i as int) + b[i as int].len());
                    assert(b == buckets_of(self.records()));
                }
                return err_toobig();
            }
            i = i + 1;
        }
        if maxsize + count > 0x1fff_ffff {
            return err_toobig();
        }
        if self.pos as u64 + 16 * (count as u64) > 0xffff_ffff {
            return err_toobig();
        }
        let mut table: Vec<HashPos> = Vec::new();
        let mut k: usize = 0;
        while k < maxsize
            invariant
                k <= maxsize,
                table@ == empty_table(k as nat),
            decreases maxsize - k,
        {
            table.push(HashPos { hash: 0, pos: 0 });
            k = k + 1;
            assert(table@ =~= empty_table(k as nat));
        }
        let mut header: Vec<u8> = Vec::new();
        let mut out: Vec<u8> = Vec::new();
        let mut pos: u32 = self.pos;
        let mut i: usize = 0;
        while i < 256
            invariant
                i <= 256,
                self.entries@.len() == 256,
                b.len() == 256,
                forall|q: int| 0 <= q < 256 ==> #[trigger] b[q] == self.entries@[q]@,
                maxsize == bucket_max(b, 256),
                count == bucket_total(b, 256),
                dend + 16 * count <= 0xffff_ffff,
                dend == self.pos(),
                b == buckets_of(self.records()),
                dend == data_end_of(self.records()),
                pos == dend + 16 * bucket_total(b, i as int),
                table@ == empty_table(maxsize as nat),
                header@ == header_bytes(b, dend, i as int),
                out@ == tables_bytes(b, i as int),
            decreases 256 - i,
        {
            proof {
                lemma_total_mono(b, i + 1, 256);
                lemma_max_bound(b, i as int, 256);
            }
            let n = self.entries[i].len();
            let len = n * 2;
            let hb = pair_bytes(pos, len as u32);
            append(&mut header, &hb);
            let ghost bi = b[i as int];
            let mut j: usize = 0;
            while j < n
                invariant
                    j <= n,
                    n == bi.len(),
                    len == 2 * n,
                    len <= maxsize,
                    bi == self.entries@[i as int]@,
                    i < 256,
                    self.entries@.len() == 256,
                    table@.len() == maxsize,
                    table@.subrange(0, len as int) == layout(bi.subrange(0, j as int), len as int),
                    forall|q: int| len <= q < maxsize ==> table@[q] == empty_slot(),
                decreases n - j,
            {
                let e = self.entries[i][j];
                let ghost t = table@.subrange(0, len as int);
                let w0 = ((e.hash / 256) as usize) % len;
                let mut wh = w0;
                let mut fuel: usize = len;
                while fuel > 1 && table[wh].pos != 0
                    invariant
                        1 <= fuel <= len,
                        wh < len,
                        len <= maxsize,
                        table@.len() == maxsize,
                        t == table@.subrange(0, len as int),
                        probe_slot(t, wh as int, len as int, fuel as nat) == probe_slot(
                            t,
                            w0 as int,
                            len as int,
                            len as nat,
                        ),
                    decreases fuel,
                {
                    assert(t[wh as int] == table@[wh as int]);
                    let ghost w1 = (wh + 1) % (len as int);
                    proof {
                        if wh + 1 < len {
                            lemma_small_mod((wh + 1) as nat, len as nat);
                        } else {
                            lemma_mod_self_0(len as int);
                        }
                    }
                    assert(probe_slot(t, wh as int, len as int, fuel as nat) == probe_slot(
                        t,
                        w1,
                        len as int,
                        (fuel - 1) as nat,
                    ));
                    wh = wh + 1;
                    if wh == len {
                        wh = 0;
                    }
                    assert(wh == w1);
                    fuel = fuel - 1;
                }
                proof {
                    if fuel > 1 {
                        assert(t[wh as int] == table@[wh as int]);
                    }
                }
                table.set(wh, e);
                proof {
                    let pre = bi.subrange(0, j as int);
                    let next = bi.subrange(0, j + 1);
                    assert(next.drop_last() =~= pre);
                    assert(next.last() == e);
                    assert(table@.subrange(0, len as int) =~= t.update(wh as int, e));
                }
                j = j + 1;
            }
            let ghost lay = table@.subrange(0, len as int);
            assert(bi.subrange(0, n as int) =~= bi);
            let ghost out_i = out@;
            let ghost pos_i = pos;
            let mut k: usize = 0;
            while k < len
                invariant
                    k <= len,
                    len <= maxsize,
                    table@.len() == maxsize,
                    lay.len() == len,
                    forall|q: int| 0 <= q < k ==> table@[q] == empty_slot(),
                    forall|q: int| k <= q < len ==> table@[q] == lay[q],
                    forall|q: int| len <= q < maxsize ==> table@[q] == empty_slot(),
                    out@ == out_i + slots_bytes(lay.subrange(0, k as int)),
                    pos == pos_i + 8 * k,
                    pos_i + 8 * len <= 0xffff_ffff,
                decreases len - k,
            {
                let hp = table[k];
                let pb = pair_bytes(hp.hash, hp.pos);
                append(&mut out, &pb);
                table.set(k, HashPos { hash: 0, pos: 0 });
                pos = pos + 8;
                proof {
                    assert(lay.subrange(0, k + 1).drop_last() =~= lay.subrange(0, k as int));
                }
                k = k + 1;
            }
            assert(lay.subrange(0, len as int) =~= lay);
            assert(table@ =~= empty_table(maxsize as nat));
            i = i + 1;
        }
        Ok((out, header))
    }
}

/// Appends `src` to `out`.
fn append(out: &mut Vec<u8>, src: &[u8])
    ensures
        final(out)@ == old(out)@ + src@,
{
    let n = src.len();
    let mut i: usize = 0;
    while i < n
        invariant
            n == src@.len(),
            i <= n,
            out@ == old(out)@ + src@.subrange(0, i as int),
        decreases n - i,
    {
        out.push(src[i]);
        i = i + 1;
        assert(out@ =~= old(out)@ + src@.subrange(0, i as int));
    }
    assert(src@.subrange(0, n as int) =~= src@);
}

/// The eight bytes of the pair `(a, b)`.
fn pair_bytes(a: u32, b: u32) -> (r: [u8; 8])
    ensures
        r@ == le_pair_bytes(a, b),
{
    let mut buf: [u8; 8] = [0u8; 8];
    pack2(&mut buf, a, b);
    assert(buf@ =~= buf@.subrange(0, 8));
    buf
}

} // verus!
