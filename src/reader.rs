//! Reading a CDB file image: keyed lookup and sequential iteration.
use vstd::prelude::*;

use crate::error::{err_badfile, Error};
use crate::hash::{cdb_hash, hash};
use crate::uint32::{le32_at, unpack, unpack2};

verus! {

/// The size of the window in which stored keys are compared.
pub const KEYSIZE: usize = 32;

/// The size of the header: 256 entries of two integers.
pub const HEADER_SIZE: usize = 2048;

/// Whether `f` has a size that a CDB file may have.
pub open spec fn valid_size(f: Seq<u8>) -> bool {
    HEADER_SIZE <= f.len() <= 0xffff_ffff
}

/// The integer at offset `p` of the file, as a mathematical integer.
pub open spec fn int_at(f: Seq<u8>, p: int) -> int {
    le32_at(f, p) as int
}

/// `a + b` modulo 2^32.
pub open spec fn add32(a: int, b: int) -> int {
    (a + b) % 0x1_0000_0000
}

/// The header entry for a key of hash `h`: offset of its subtable, number of
/// slots, and the slot where probing starts.
pub open spec fn hash_table_spec(f: Seq<u8>, h: u32) -> (int, int, int) {
    let x = (h & 0xffu32) as int * 8;
    let hpos = int_at(f, x);
    let hslots = int_at(f, x + 4);
    let kpos = if hslots > 0 {
        add32(hpos, ((h as int / 256) % hslots * 8) % 0x1_0000_0000)
    } else {
        0
    };
    (hpos, hslots, kpos)
}

/// Compares `key` from `keypos` on with the file from `pos` on, one window
/// of at most `KEYSIZE` bytes at a time: a window that runs past the end of
/// the file is an error, a window that differs ends the comparison.
pub open spec fn match_spec(f: Seq<u8>, key: Seq<u8>, pos: int, keypos: int) -> Result<
    bool,
    Error,
>
    decreases key.len() - keypos,
{
    if keypos >= key.len() || keypos < 0 {
        Ok(true)
    } else {
        let n = if key.len() - keypos < KEYSIZE {
            key.len() - keypos
        } else {
            KEYSIZE as int
        };
        if pos + n > f.len() {
            Err(Error::BadFile)
        } else if f.subrange(pos, pos + n) != key.subrange(keypos, keypos + n) {
            Ok(false)
        } else {
            match_spec(f, key, pos + n, keypos + n)
        }
    }
}

/// The state of a keyed lookup.
pub struct FindView {
    pub key: Seq<u8>,
    pub khash: u32,
    pub hpos: int,
    pub hslots: int,
    pub kloop: int,
    pub kpos: int,
    pub done: bool,
}

/// The state of a lookup of `key` before its first step.
pub open spec fn find_start(f: Seq<u8>, key: Seq<u8>) -> FindView {
    let h = cdb_hash(key);
    let (hpos, hslots, kpos) = hash_table_spec(f, h);
    FindView { key, khash: h, hpos, hslots, kloop: 0, kpos, done: false }
}

/// The state that ends a lookup.
pub open spec fn find_stop(s: FindView) -> FindView {
    FindView { done: true, ..s }
}

/// One step of a lookup: what it yields and the state after it.
///
/// Slots are probed from `s.kpos` on, wrapping at the end of the subtable,
/// at most `hslots` in all. An empty slot ends the lookup; a slot with the
/// key's hash whose record holds the key yields that record's value. An
/// offset or a length that points past the end of the file yields
/// `BadFile` once, and the lookup ends.
pub open spec fn find_next(f: Seq<u8>, s: FindView) -> (Option<Result<Seq<u8>, Error>>, FindView)
    decreases s.hslots - s.kloop,
{
    if s.done || s.kloop >= s.hslots {
        (None, s)
    } else if s.kpos + 8 > f.len() {
        (Some(Err(Error::BadFile)), find_stop(s))
    } else {
        let slot_hash = le32_at(f, s.kpos);
        let pos = int_at(f, s.kpos + 4);
        if pos == 0 {
            (None, find_stop(s))
        } else {
            let hend = s.hpos + (s.hslots * 8) % 0x1_0000_0000;
            if hend > 0xffff_ffff {
                (Some(Err(Error::BadFile)), find_stop(s))
            } else {
                let kpos = if s.kpos + 8 == hend {
                    s.hpos
                } else {
                    s.kpos + 8
                };
                let s2 = FindView { kloop: s.kloop + 1, kpos, ..s };
                if slot_hash != s.khash {
                    find_next(f, s2)
                } else if pos + 8 > f.len() {
                    (Some(Err(Error::BadFile)), find_stop(s2))
                } else if int_at(f, pos) != s.key.len() {
                    find_next(f, s2)
                } else {
                    match match_spec(f, s.key, pos + 8, 0) {
                        Err(e) => (Some(Err(e)), find_stop(s2)),
                        Ok(false) => find_next(f, s2),
                        Ok(true) => {
                            let dpos = pos + 8 + s.key.len();
                            let dlen = int_at(f, pos + 4);
                            if dpos + dlen > f.len() {
                                (Some(Err(Error::BadFile)), find_stop(s2))
                            } else {
                                (Some(Ok(f.subrange(dpos, dpos + dlen))), s2)
                            }
                        },
                    }
                }
            }
        }
    }
}

/// The state of a sequential iteration.
pub struct KvView {
    pub pos: int,
    pub data_end: int,
    pub done: bool,
}

/// The state of a sequential iteration before its first step: records start
/// after the header and end where the first subtable starts, or at the end
/// of the file.
pub open spec fn kv_start(f: Seq<u8>) -> KvView {
    let d = int_at(f, 0);
    KvView { pos: HEADER_SIZE as int, data_end: if d < f.len() { d } else { f.len() as int }, done: false }
}

/// One step of a sequential iteration: what it yields and the state after it.
pub open spec fn kv_next(f: Seq<u8>, s: KvView) -> (
    Option<Result<(Seq<u8>, Seq<u8>), Error>>,
    KvView,
) {
    if s.done || s.pos + 8 >= s.data_end {
        (None, s)
    } else {
        let klen = int_at(f, s.pos);
        let dlen = int_at(f, s.pos + 4);
        let end = s.pos + 8 + klen + dlen;
        if end > s.data_end {
            (Some(Err(Error::BadFile)), KvView { done: true, ..s })
        } else {
            let kpos = s.pos + 8;
            (
                Some(Ok((f.subrange(kpos, kpos + klen), f.subrange(kpos + klen, end)))),
                KvView { pos: end, ..s },
            )
        }
    }
}

/// A CDB file reader over the whole image of the file.
pub struct CDB {
    file: Vec<u8>,
}

impl View for CDB {
    type V = Seq<u8>;

    closed spec fn view(&self) -> Seq<u8> {
        self.file@
    }
}

impl CDB {
    #[verifier::type_invariant]
    spec fn inv(&self) -> bool {
        valid_size(self.file@)
    }

    /// Takes the bytes of a CDB file. Only the size is checked here; the
    /// rest is checked at each access.
    pub fn open(file: Vec<u8>) -> (r: Result<CDB, Error>)
        ensures
            r is Ok <==> valid_size(file@),
            r is Err ==> r == Err::<CDB, Error>(Error::BadFile),
            r matches Ok(c) ==> c@ == file@,
    {
        if file.len() < HEADER_SIZE || file.len() > 0xffff_ffff {
            return err_badfile();
        }
        Ok(CDB { file })
    }

    /// The size of the file.
    pub fn size(&self) -> (r: usize)
        ensures
            r == self@.len(),
            valid_size(self@),
    {
        proof {
            use_type_invariant(self);
        }
        self.file.len()
    }

    /// Copies `len` bytes at `pos`.
    fn read(&self, pos: u32, len: usize) -> (r: Result<Vec<u8>, Error>)
        ensures
            valid_size(self@),
            r is Ok <==> pos + len <= self@.len(),
            r is Err ==> r == Err::<Vec<u8>, Error>(Error::BadFile),
            r matches Ok(v) ==> v@ == self@.subrange(pos as int, pos + len),
    {
        proof {
            use_type_invariant(self);
        }
        let p = pos as usize;
        if len > self.file.len() || p > self.file.len() - len {
            return err_badfile();
        }
        let mut out: Vec<u8> = Vec::with_capacity(len);
        let mut i: usize = 0;
        let n = self.file.len();
        while i < len
            invariant
                n == self.file@.len(),
                p + len <= n,
                i <= len,
                out@ == self.file@.subrange(p as int, p + i),
            decreases len - i,
        {
            out.push(self.file[p + i]);
            i = i + 1;
            assert(out@ =~= self.file@.subrange(p as int, p + i));
        }
        Ok(out)
    }

    /// The two integers at `pos`.
    fn read_pair(&self, pos: u32) -> (r: Result<(u32, u32), Error>)
        ensures
            valid_size(self@),
            r is Ok <==> pos + 8 <= self@.len(),
            r is Err ==> r == Err::<(u32, u32), Error>(Error::BadFile),
            r matches Ok(v) ==> v == (le32_at(self@, pos as int), le32_at(self@, pos + 4)),
    {
        let buf = self.read(pos, 8)?;
        let v = unpack2(buf.as_slice());
        Ok(v)
    }

    /// The header entry for a key of hash `khash`.
    fn hash_table(&self, khash: u32) -> (r: (u32, u32, u32))
        ensures
            (r.0 as int, r.1 as int, r.2 as int) == hash_table_spec(self@, khash),
    {
        proof {
            use_type_invariant(self);
        }
        let b = khash & 0xffu32;
        assert(khash & 0xffu32 <= 0xff) by (bit_vector);
        let x = (b as usize) * 8;
        let entry = vstd::slice::slice_subrange(self.file.as_slice(), x, x + 8);
        let v = unpack2(entry);
        let hpos = v.0;
        let hslots = v.1;
        let kpos = if hslots > 0 {
            hpos.wrapping_add(((khash / 256) % hslots).wrapping_mul(8))
        } else {
            0
        };
        (hpos, hslots, kpos)
    }
}


/// A comparison that succeeds covers the whole key inside the file.
proof fn lemma_match_in_bounds(f: Seq<u8>, key: Seq<u8>, pos: int, keypos: int)
    requires
        0 <= keypos < key.len(),
        match_spec(f, key, pos, keypos) == Ok::<bool, Error>(true),
    ensures
        pos + key.len() - keypos <= f.len(),
    decreases key.len() - keypos,
{
    let n = if key.len() - keypos < KEYSIZE {
        key.len() - keypos
    } else {
        KEYSIZE as int
    };
    if keypos + n < key.len() {
        lemma_match_in_bounds(f, key, pos + n, keypos + n);
    }
}

/// Whether `buf` equals the bytes of `key` from `keypos` on.
fn same_bytes(buf: &Vec<u8>, key: &[u8], keypos: usize) -> (r: bool)
    requires
        keypos + buf@.len() <= key@.len(),
    ensures
        r == (buf@ == key@.subrange(keypos as int, keypos + buf@.len())),
{
    let n = buf.len();
    let kl = key.len();
    let mut j: usize = 0;
    while j < n
        invariant
            n == buf@.len(),
            kl == key@.len(),
            keypos + n <= key@.len(),
            j <= n,
            forall|t: int| 0 <= t < j ==> buf@[t] == key@[keypos + t],
        decreases n - j,
    {
        if buf[j] != key[keypos + j] {
            assert(buf@[j as int] != key@.subrange(keypos as int, keypos + n)[j as int]);
            return false;
        }
        j = j + 1;
    }
    assert(buf@ =~= key@.subrange(keypos as int, keypos + n));
    true
}

impl CDB {
    /// Compares `key` with the bytes at `pos`, one window at a time.
    fn match_key(&self, key: &[u8], start: u32) -> (r: Result<bool, Error>)
        ensures
            valid_size(self@),
            r == match_spec(self@, key@, start as int, 0),
    {
        proof {
            use_type_invariant(self);
        }
        let ghost f = self@;
        let len0 = key.len();
        let mut len: usize = key.len();
        let mut pos: u32 = start;
        let mut keypos: usize = 0;
        while len > 0
            invariant
                keypos + len == len0,
                len0 == key@.len(),
                match_spec(f, key@, pos as int, keypos as int) == match_spec(
                    f,
                    key@,
                    start as int,
                    0,
                ),
                f == self@,
                valid_size(f),
            decreases len,
        {
            let n = if len < KEYSIZE {
                len
            } else {
                KEYSIZE
            };
            let buf = self.read(pos, n)?;
            if !same_bytes(&buf, key, keypos) {
                return Ok(false);
            }
            pos = pos + n as u32;
            keypos = keypos + n;
            len = len - n;
        }
        Ok(true)
    }

    /// The offset where the records end, as the header records it, but no
    /// further than the end of the file.
    fn data_end(&self) -> (r: u32)
        ensures
            r as int == kv_start(self@).data_end,
    {
        proof {
            use_type_invariant(self);
        }
        let first = vstd::slice::slice_subrange(self.file.as_slice(), 0, 4);
        let d = unpack(first);
        let size = self.file.len() as u32;
        if d < size {
            d
        } else {
            size
        }
    }

    /// The first value stored under `key`, if there is one.
    pub fn get(&self, key: &[u8]) -> (r: Option<Result<Vec<u8>, Error>>)
        ensures
            value_view(r) == find_first(self@, key@),
    {
        let mut it = self.find(key);
        it.next()
    }

    /// All values stored under `key`, one at a time.
    pub fn find<'a>(&'a self, key: &[u8]) -> (r: CDBValueIter<'a>)
        ensures
            r@ == find_start(self@, key@),
            r.file() == self@,
    {
        CDBValueIter::find(self, key)
    }

    /// All records, in the order in which they were written.
    pub fn iter<'a>(&'a self) -> (r: CDBKeyValueIter<'a>)
        ensures
            r@ == kv_start(self@),
            r.file() == self@,
    {
        CDBKeyValueIter::start(self)
    }
}

/// What a lookup step returned, with each value seen as its bytes.
pub open spec fn value_view(r: Option<Result<Vec<u8>, Error>>) -> Option<Result<Seq<u8>, Error>> {
    match r {
        Some(Ok(v)) => Some(Ok(v@)),
        Some(Err(e)) => Some(Err(e)),
        None => None,
    }
}

/// What an iteration step returned, with each key and value seen as its
/// bytes.
pub open spec fn record_view(r: Option<Result<(Vec<u8>, Vec<u8>), Error>>) -> Option<
    Result<(Seq<u8>, Seq<u8>), Error>,
> {
    match r {
        Some(Ok(p)) => Some(Ok((p.0@, p.1@))),
        Some(Err(e)) => Some(Err(e)),
        None => None,
    }
}

/// What `get` gives: the first step of a lookup.
pub open spec fn find_first(f: Seq<u8>, key: Seq<u8>) -> Option<Result<Seq<u8>, Error>> {
    find_next(f, find_start(f, key)).0
}

/// A lookup of one key: the values stored under it, in probe order.
pub struct CDBValueIter<'a> {
    cdb: &'a CDB,
    key: Vec<u8>,
    khash: u32,
    kloop: u32,
    kpos: u32,
    hpos: u32,
    hslots: u32,
    done: bool,
}

impl<'a> View for CDBValueIter<'a> {
    type V = FindView;

    closed spec fn view(&self) -> FindView {
        FindView {
            key: self.key@,
            khash: self.khash,
            hpos: self.hpos as int,
            hslots: self.hslots as int,
            kloop: self.kloop as int,
            kpos: self.kpos as int,
            done: self.done,
        }
    }
}

impl<'a> CDBValueIter<'a> {
    /// The file that the lookup reads.
    pub closed spec fn file(&self) -> Seq<u8> {
        self.cdb@
    }

    fn find(cdb: &'a CDB, key: &[u8]) -> (r: Self)
        ensures
            r@ == find_start(cdb@, key@),
            r.file() == cdb@,
    {
        let khash = hash(key);
        let (hpos, hslots, kpos) = cdb.hash_table(khash);
        let k = vstd::slice::slice_to_vec(key);
        CDBValueIter { cdb, key: k, khash, kloop: 0, kpos, hpos, hslots, done: false }
    }

    /// The next value stored under the key, `None` once there is none, or
    /// `BadFile` once where the file is malformed.
    pub fn next(&mut self) -> (r: Option<Result<Vec<u8>, Error>>)
        ensures
            final(self).file() == old(self).file(),
            final(self)@ == find_next(old(self).file(), old(self)@).1,
            value_view(r) == find_next(old(self).file(), old(self)@).0,
    {
        let ghost f = self.file();
        let ghost s0 = self@;
        if self.done {
            return None;
        }
        while self.kloop < self.hslots
            invariant
                self.file() == f,
                old(self).file() == f,
                old(self)@ == s0,
                !self.done,
                find_next(f, self@) == find_next(f, s0),
            decreases self.hslots - self.kloop,
        {
            let ghost s = self@;
            assert(find_next(f, s) == find_next(f, s0));
            let kpos = self.kpos;
            let (khash, pos) = match self.cdb.read_pair(kpos) {
                Ok(v) => v,
                Err(e) => {
                    self.done = true;
                    assert(self@ == find_stop(s));
                    return Some(Err(e));
                },
            };
            if pos == 0 {
                self.done = true;
                assert(self@ == find_stop(s));
                return None;
            }
            let hend = match self.hpos.checked_add(self.hslots.wrapping_mul(8)) {
                Some(x) => x,
                None => {
                    self.done = true;
                    assert(self@ == find_stop(s));
                    return Some(err_badfile());
                },
            };
            self.kloop = self.kloop + 1;
            self.kpos = self.kpos + 8;
            if self.kpos == hend {
                self.kpos = self.hpos;
            }
            let ghost s2 = self@;
            assert(s2 == FindView { kloop: s.kloop + 1, kpos: s2.kpos, ..s });
            if khash == self.khash {
                let (klen, dlen) = match self.cdb.read_pair(pos) {
                    Ok(v) => v,
                    Err(e) => {
                        self.done = true;
                        return Some(Err(e));
                    },
                };
                if klen as usize == self.key.len() {
                    match self.cdb.match_key(self.key.as_slice(), pos + 8) {
                        Err(e) => {
                            self.done = true;
                            return Some(Err(e));
                        },
                        Ok(true) => {
                            proof {
                                if self.key@.len() > 0 {
                                    lemma_match_in_bounds(f, self.key@, pos + 8, 0);
                                }
                            }
                            let dpos = pos + 8 + klen;
                            let r = self.cdb.read(dpos, dlen as usize);
                            if r.is_err() {
                                self.done = true;
                            }
                            return Some(r);
                        },
                        Ok(false) => {},
                    }
                }
            }
        }
        None
    }
}

/// A walk over all records of the file, in the order in which they were
/// written.
pub struct CDBKeyValueIter<'a> {
    cdb: &'a CDB,
    pos: u32,
    data_end: u32,
    done: bool,
}

impl<'a> View for CDBKeyValueIter<'a> {
    type V = KvView;

    closed spec fn view(&self) -> KvView {
        KvView { pos: self.pos as int, data_end: self.data_end as int, done: self.done }
    }
}

impl<'a> CDBKeyValueIter<'a> {
    #[verifier::type_invariant]
    spec fn inv(&self) -> bool {
        self.data_end <= self.cdb@.len()
    }

    /// The file that the walk reads.
    pub closed spec fn file(&self) -> Seq<u8> {
        self.cdb@
    }

    fn start(cdb: &'a CDB) -> (r: Self)
        ensures
            r@ == kv_start(cdb@),
            r.file() == cdb@,
    {
        let data_end = cdb.data_end();
        CDBKeyValueIter { cdb, pos: HEADER_SIZE as u32, data_end, done: false }
    }

    /// The next record as a key and a value, `None` at the end of the
    /// records, or `BadFile` once where a record runs past their end.
    pub fn next(&mut self) -> (r: Option<Result<(Vec<u8>, Vec<u8>), Error>>)
        ensures
            final(self).file() == old(self).file(),
            final(self)@ == kv_next(old(self).file(), old(self)@).1,
            record_view(r) == kv_next(old(self).file(), old(self)@).0,
    {
        proof {
            use_type_invariant(&*self);
        }
        if self.done || self.pos as u64 + 8 >= self.data_end as u64 {
            return None;
        }
        let (klen, dlen) = match self.cdb.read_pair(self.pos) {
            Ok(v) => v,
            Err(e) => {
                return Some(Err(e));
            },
        };
        let end: u64 = self.pos as u64 + 8 + klen as u64 + dlen as u64;
        if end > self.data_end as u64 {
            self.done = true;
            return Some(err_badfile());
        }
        let kpos = self.pos + 8;
        let key = match self.cdb.read(kpos, klen as usize) {
            Ok(v) => v,
            Err(e) => {
                return Some(Err(e));
            },
        };
        let value = match self.cdb.read(kpos + klen, dlen as usize) {
            Ok(v) => v,
            Err(e) => {
                return Some(Err(e));
            },
        };
        self.pos = end as u32;
        Some(Ok((key, value)))
    }
}

} // verus!
