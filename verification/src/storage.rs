//! The log-structured storage engine.
//!
//! `Bitcask` owns the contents of the data file as a byte vector, the
//! in-memory key-to-offset index, and the wasted-bytes counter that
//! triggers compaction.  Reading the file into memory at open and
//! writing appended bytes back out are the caller's concern: the
//! engine is a pure function of those bytes, and every operation is
//! verified against the replay semantics in [`crate::replay`].

use vstd::prelude::*;
use vstd::string::StrSliceExecFns;
use vstd::utf8::{decode_utf8, encode_utf8, valid_utf8};

use crate::big_endian::u64_read_be_bytes;
use crate::codec::{cmd_type_byte, spec_record_bytes, CmdType, Entry, ENTRY_HEAD_LEN};
use crate::error::KvsError;
use crate::index::{
    entries_bytes, entries_disjoint, entries_map, entry_ok, keys_distinct,
    lemma_entries_bytes_bounded, lemma_entries_map_at, lemma_entries_map_contains,
    lemma_entries_map_push, lemma_entries_map_remove, lemma_entries_survive_append, IndexEntry,
};
use crate::replay::{
    lemma_rec_agree_prefix, lemma_rec_at_append, lemma_rec_bytes_reconstruct,
    lemma_recover_append_record, lemma_recover_empty, lemma_recover_prefix, rec_cmd, rec_fits,
    rec_key, rec_key_len, rec_len, rec_ok, rec_value, rec_value_len, recover_from, spec_recover,
    Recovery,
};
use crate::text::bytes_to_string;

verus! {

broadcast use
    vstd::std_specs::vec::group_vec_axioms,
    vstd::map::group_map_axioms,
;

/// When the wasted-bytes counter reaches this many bytes, `set`
/// compacts the log.
pub const COMPACTION_THRESHOLD: u64 = 65536;

/// `a + b` capped at the largest representable counter value.
pub open spec fn sat_add_u64(a: u64, b: int) -> u64 {
    if a + b <= u64::MAX {
        (a + b) as u64
    } else {
        u64::MAX
    }
}

/// The wasted-bytes counter after a `PUT` of `kb`: when the key was
/// live, the encoded size of its superseded record is added.
pub open spec fn wasted_after_set(m: Map<Seq<u8>, Seq<u8>>, w: u64, kb: Seq<u8>) -> u64 {
    if m.contains_key(kb) {
        sat_add_u64(w, 17 + kb.len() as int + m[kb].len() as int)
    } else {
        w
    }
}

/// The capability a storage engine offers: point reads, point writes
/// and deletes over string keys and values.
///
/// The abstract state of an engine is `live()`, the map from the
/// UTF-8 bytes of each live key to the UTF-8 bytes of its current
/// value, together with the wasted-bytes counter `wasted()` and the
/// size `log_size()` of the backing log.
pub trait Storage: Sized {
    /// The engine's internal invariant.
    spec fn inv(&self) -> bool;

    /// The map of live keys to values, both as UTF-8 bytes.
    spec fn live(&self) -> Map<Seq<u8>, Seq<u8>>;

    /// The wasted-bytes counter.
    spec fn wasted(&self) -> u64;

    /// The size of the backing log in bytes.
    spec fn log_size(&self) -> int;

    /// Returns the current value of `key`, or `None` when the key is
    /// not live.
    fn get(&mut self, key: String) -> (r: Result<Option<String>, KvsError>)
        requires
            old(self).inv(),
        ensures
            final(self).inv(),
            final(self).live() == old(self).live(),
            final(self).wasted() == old(self).wasted(),
            final(self).log_size() == old(self).log_size(),
            ({
                let kb = encode_utf8(key@);
                if old(self).live().contains_key(kb) {
                    &&& r is Ok
                    &&& r->Ok_0 is Some
                    &&& r->Ok_0->Some_0@ == decode_utf8(old(self).live()[kb])
                    &&& encode_utf8(r->Ok_0->Some_0@) == old(self).live()[kb]
                } else {
                    r == Ok::<Option<String>, KvsError>(None)
                }
            }),
    ;

    /// Binds `key` to `value`, superseding any earlier binding, and
    /// compacts the log when the wasted-bytes counter reaches the
    /// threshold.  Fails only when the encoded record does not fit
    /// the machine's address space.
    fn set(&mut self, key: String, value: String) -> (r: Result<(), KvsError>)
        requires
            old(self).inv(),
        ensures
            final(self).inv(),
            ({
                let kb = encode_utf8(key@);
                let vb = encode_utf8(value@);
                let fits = old(self).log_size() + 17 + kb.len() + vb.len() <= usize::MAX;
                let ws = wasted_after_set(old(self).live(), old(self).wasted(), kb);
                &&& (r is Ok <==> fits)
                &&& (r is Err ==> r->Err_0 == KvsError::IO && final(self).live() == old(self).live()
                    && final(self).wasted() == old(self).wasted() && final(self).log_size() == old(self).log_size())
                &&& (r is Ok ==> final(self).live() == old(self).live().insert(kb, vb))
                &&& (r is Ok && ws < COMPACTION_THRESHOLD ==> final(self).wasted() == ws && final(self).log_size() == old(self).log_size() + 17 + kb.len() + vb.len())
                &&& (r is Ok && ws >= COMPACTION_THRESHOLD ==> final(self).wasted() == 0)
            }),
    ;

    /// Removes `key`.  Fails with `KeyNotFound` when the key is not
    /// live; no record is appended in that case.
    fn remove(&mut self, key: String) -> (r: Result<(), KvsError>)
        requires
            old(self).inv(),
        ensures
            final(self).inv(),
            ({
                let kb = encode_utf8(key@);
                let present = old(self).live().contains_key(kb);
                let fits = old(self).log_size() + 17 + kb.len() <= usize::MAX;
                &&& (r is Ok <==> present && fits)
                &&& (!present ==> r == Err::<(), KvsError>(KvsError::KeyNotFound) && final(self).live() == old(self).live() && final(self).wasted() == old(self).wasted() && final(self).log_size() == old(self).log_size())
                &&& (present && !fits ==> r == Err::<(), KvsError>(KvsError::IO) && final(self).live() == old(self).live() && final(self).wasted() == old(self).wasted() && final(self).log_size() == old(self).log_size())
                &&& (r is Ok ==> final(self).live() == old(self).live().remove(kb) && final(self).wasted() == old(self).wasted() && final(self).log_size() == old(self).log_size()
                    + 17 + kb.len())
            }),
    ;
}

/// The log-structured engine: the data file's bytes, the index, and
/// the wasted-bytes counter.
pub struct Bitcask {
    /// The contents of the data file.
    pub log: Vec<u8>,
    /// The in-memory index: one entry per live key, pointing at the
    /// key's most recent `PUT` record.
    pub index: Vec<IndexEntry>,
    /// Total encoded size of records superseded since the last
    /// compaction.
    pub compaction: u64,
}

impl Bitcask {
    /// The invariant except for the wasted-bytes bound: every index
    /// entry points at a complete `PUT` record for its own key, keys
    /// are distinct, records of distinct entries do not overlap, and
    /// replaying the whole log consumes it exactly and yields the map
    /// the index denotes.
    pub open spec fn inv_core(&self) -> bool {
        &&& forall|i: int|
            0 <= i < self.index@.len() ==> entry_ok(self.log@, #[trigger] self.index@[i])
        &&& keys_distinct(self.index@)
        &&& entries_disjoint(self.log@, self.index@)
        &&& spec_recover(self.log@) == (Recovery::Complete {
            end: self.log@.len() as int,
            live: entries_map(self.log@, self.index@),
        })
    }
}

/// Removing one entry from a well-formed index keeps it well formed,
/// and no survivor carries the removed entry's key.
proof fn lemma_index_remove_keeps(log: Seq<u8>, s: Seq<IndexEntry>, i: int)
    requires
        0 <= i < s.len(),
        forall|j: int| 0 <= j < s.len() ==> entry_ok(log, #[trigger] s[j]),
        keys_distinct(s),
        entries_disjoint(log, s),
    ensures
        forall|j: int| 0 <= j < s.remove(i).len() ==> entry_ok(log, #[trigger] s.remove(i)[j]),
        keys_distinct(s.remove(i)),
        entries_disjoint(log, s.remove(i)),
        forall|j: int| 0 <= j < s.remove(i).len() ==> #[trigger] s.remove(i)[j].key@ != s[i].key@,
{
    let t = s.remove(i);
    assert forall|j: int| 0 <= j < t.len() implies entry_ok(log, #[trigger] t[j]) && t[j].key@
        != s[i].key@ by {
        if j < i {
            assert(t[j] == s[j]);
        } else {
            assert(t[j] == s[j + 1]);
        }
    }
    assert forall|a: int, b: int| 0 <= a < b < t.len() implies t[a].key@ != t[b].key@ && t[a].off
        + rec_len(log, #[trigger] t[a].off as int) <= #[trigger] t[b].off by {
        let a0: int = if a < i {
            a
        } else {
            a + 1
        };
        let b0: int = if b < i {
            b
        } else {
            b + 1
        };
        assert(t[a] == s[a0]);
        assert(t[b] == s[b0]);
    }
}

/// The state change of one record append: the survivors of the old
/// index, plus for a `PUT` one new entry at the old end of the log,
/// form a well-formed index for the extended log, and denote the old
/// map with the record applied.
proof fn lemma_write_post(
    log0: Seq<u8>,
    m: Map<Seq<u8>, Seq<u8>>,
    cmd: u8,
    kbs: Seq<u8>,
    vbs: Seq<u8>,
    survivors: Seq<IndexEntry>,
    idx2: Seq<IndexEntry>,
    e: IndexEntry,
)
    requires
        spec_recover(log0) == (Recovery::Complete { end: log0.len() as int, live: m }),
        cmd == 1 || cmd == 2,
        valid_utf8(kbs),
        valid_utf8(vbs),
        kbs.len() <= u64::MAX,
        vbs.len() <= u64::MAX,
        forall|j: int| 0 <= j < survivors.len() ==> entry_ok(log0, #[trigger] survivors[j]),
        keys_distinct(survivors),
        entries_disjoint(log0, survivors),
        forall|j: int| 0 <= j < survivors.len() ==> #[trigger] survivors[j].key@ != kbs,
        entries_map(log0, survivors) == m.remove(kbs),
        e.key@ == kbs,
        e.off == log0.len(),
        idx2 == (if cmd == 1 {
            survivors.push(e)
        } else {
            survivors
        }),
    ensures
        ({
            let log2 = log0 + spec_record_bytes(cmd, kbs, vbs);
            &&& forall|j: int| 0 <= j < idx2.len() ==> entry_ok(log2, #[trigger] idx2[j])
            &&& keys_distinct(idx2)
            &&& entries_disjoint(log2, idx2)
            &&& entries_map(log2, idx2) == (if cmd == 1 {
                m.insert(kbs, vbs)
            } else {
                m.remove(kbs)
            })
            &&& spec_recover(log2) == (Recovery::Complete {
                end: log2.len() as int,
                live: entries_map(log2, idx2),
            })
        }),
{
    let r = spec_record_bytes(cmd, kbs, vbs);
    let log2 = log0 + r;
    lemma_recover_append_record(log0, m, cmd, kbs, vbs);
    lemma_entries_survive_append(log0, r, survivors);
    if cmd == 1 {
        lemma_rec_at_append(log0, cmd, kbs, vbs);
        assert(entry_ok(log2, e));
        lemma_entries_map_push(log2, survivors, e);
        assert(entries_map(log2, idx2) == entries_map(log2, survivors).insert(kbs, vbs));
        assert(m.remove(kbs).insert(kbs, vbs) =~= m.insert(kbs, vbs));
        assert forall|j: int| 0 <= j < idx2.len() implies entry_ok(log2, #[trigger] idx2[j]) by {
            if j < idx2.len() - 1 {
                assert(idx2[j] == survivors[j]);
            } else {
                assert(idx2[j] == e);
            }
        }
        assert forall|a: int, b: int| 0 <= a < b < idx2.len() implies idx2[a].key@ != idx2[b].key@
            && idx2[a].off + rec_len(log2, #[trigger] idx2[a].off as int)
            <= #[trigger] idx2[b].off by {
            assert(idx2[a] == survivors[a]);
            if b == idx2.len() - 1 {
                assert(idx2[b] == e);
                assert(entry_ok(log0, survivors[a]));
                assert(rec_fits(log0, survivors[a].off as int));
            } else {
                assert(idx2[b] == survivors[b]);
            }
        }
        assert(keys_distinct(idx2));
        assert(entries_disjoint(log2, idx2));
    }
}

/// Compares two byte vectors for equality.
fn bytes_eq(a: &Vec<u8>, b: &Vec<u8>) -> (r: bool)
    ensures
        r == (a@ == b@),
{
    if a.len() != b.len() {
        return false;
    }
    let n = a.len();
    let mut i: usize = 0;
    while i < n
        invariant
            i <= n,
            n == a@.len(),
            n == b@.len(),
            forall|j: int| 0 <= j < i ==> a@[j] == b@[j],
        decreases n - i,
    {
        if a[i] != b[i] {
            return false;
        }
        i = i + 1;
    }
    proof {
        assert(a@ =~= b@);
    }
    true
}

/// Copies `len` bytes starting at `start` out of `buf`.
fn copy_range(buf: &Vec<u8>, start: usize, len: usize) -> (r: Vec<u8>)
    requires
        start + len <= buf@.len(),
    ensures
        r@ == buf@.subrange(start as int, start as int + len as int),
{
    let n = buf.len();
    let mut r: Vec<u8> = Vec::new();
    let mut i: usize = 0;
    while i < len
        invariant
            i <= len,
            start + len <= n,
            n == buf@.len(),
            r@ == buf@.subrange(start as int, start as int + i as int),
        decreases len - i,
    {
        r.push(buf[start + i]);
        i = i + 1;
        proof {
            assert(r@ =~= buf@.subrange(start as int, start as int + i as int));
        }
    }
    r
}

/// Appends the bytes of `src` to `dst`.
fn append_bytes(dst: &mut Vec<u8>, src: &Vec<u8>)
    ensures
        final(dst)@ == old(dst)@ + src@,
{
    let ghost dst0 = old(dst)@;
    let n = src.len();
    let mut i: usize = 0;
    while i < n
        invariant
            i <= n,
            n == src@.len(),
            dst@ == dst0 + src@.subrange(0, i as int),
        decreases n - i,
    {
        dst.push(src[i]);
        i = i + 1;
        proof {
            assert(dst@ =~= dst0 + src@.subrange(0, i as int));
        }
    }
    proof {
        assert(dst0 + src@.subrange(0, n as int) =~= dst0 + src@);
    }
}

/// Returns the position of the entry carrying `key`, if any.
fn find_key(index: &Vec<IndexEntry>, key: &Vec<u8>) -> (r: Option<usize>)
    ensures
        match r {
            Some(i) => i < index@.len() && index@[i as int].key@ == key@,
            None => forall|i: int| 0 <= i < index@.len() ==> index@[i].key@ != key@,
        },
{
    let n = index.len();
    let mut i: usize = 0;
    while i < n
        invariant
            i <= n,
            n == index@.len(),
            forall|j: int| 0 <= j < i ==> index@[j].key@ != key@,
        decreases n - i,
    {
        if bytes_eq(&index[i].key, key) {
            return Some(i);
        }
        i = i + 1;
    }
    None
}

impl Bitcask {
    /// Reads the full record starting at `offset`, returning it and
    /// its encoded size.
    ///
    /// `EOF` marks an offset at or past the end of the log;
    /// `SliceDecode` a truncated header; `IO` a truncated payload;
    /// `ReprDecode` an unrecognized command byte; `StringDecode` a
    /// payload that is not valid UTF-8.
    fn read_at(&self, offset: usize) -> (r: Result<(Entry, usize), KvsError>)
        ensures
            ({
                let log = self.log@;
                let off = offset as int;
                &&& (off >= log.len() ==> r == Err::<(Entry, usize), KvsError>(KvsError::EOF))
                &&& (off < log.len() && log.len() - off < 17 ==> r == Err::<
                    (Entry, usize),
                    KvsError,
                >(KvsError::SliceDecode))
                &&& (off + 17 <= log.len() && !rec_fits(log, off) ==> r == Err::<
                    (Entry, usize),
                    KvsError,
                >(KvsError::IO))
                &&& (rec_fits(log, off) && !(rec_cmd(log, off) == 1 || rec_cmd(log, off) == 2)
                    ==> r == Err::<(Entry, usize), KvsError>(KvsError::ReprDecode))
                &&& (rec_fits(log, off) && (rec_cmd(log, off) == 1 || rec_cmd(log, off) == 2) && !(
                valid_utf8(rec_key(log, off)) && valid_utf8(rec_value(log, off))) ==> r == Err::<
                    (Entry, usize),
                    KvsError,
                >(KvsError::StringDecode))
                &&& (rec_ok(log, off) ==> {
                    &&& r is Ok
                    &&& r->Ok_0.1 == rec_len(log, off)
                    &&& r->Ok_0.0.wf()
                    &&& r->Ok_0.0.cmd_type == (if rec_cmd(log, off) == 1 {
                        CmdType::PUT
                    } else {
                        CmdType::DEL
                    })
                    &&& r->Ok_0.0.key@ == decode_utf8(rec_key(log, off))
                    &&& r->Ok_0.0.value@ == decode_utf8(rec_value(log, off))
                    &&& encode_utf8(r->Ok_0.0.key@) == rec_key(log, off)
                    &&& encode_utf8(r->Ok_0.0.value@) == rec_value(log, off)
                    &&& r->Ok_0.0.key_len == rec_key_len(log, off)
                    &&& r->Ok_0.0.value_len == rec_value_len(log, off)
                })
            }),
    {
        let n = self.log.len();
        if offset >= n {
            return Err(KvsError::EOF);
        }
        if n - offset < ENTRY_HEAD_LEN {
            return Err(KvsError::SliceDecode);
        }
        let kl64 = u64_read_be_bytes(&self.log, offset);
        let vl64 = u64_read_be_bytes(&self.log, offset + 8);
        let rem = n - offset - ENTRY_HEAD_LEN;
        if kl64 > (rem as u64) {
            return Err(KvsError::IO);
        }
        let kl = kl64 as usize;
        if vl64 > ((rem - kl) as u64) {
            return Err(KvsError::IO);
        }
        let vl = vl64 as usize;
        proof {
            assert(rec_fits(self.log@, offset as int));
        }
        let cmd = self.log[offset + 16];
        let cmd_type = if cmd == 1 {
            CmdType::PUT
        } else if cmd == 2 {
            CmdType::DEL
        } else {
            return Err(KvsError::ReprDecode);
        };
        let kb = copy_range(&self.log, offset + ENTRY_HEAD_LEN, kl);
        let ghost ks = rec_key(self.log@, offset as int);
        let ghost vs = rec_value(self.log@, offset as int);
        let key = match bytes_to_string(kb) {
            Ok(s) => s,
            Err(e) => {
                return Err(e);
            },
        };
        let vb = copy_range(&self.log, offset + ENTRY_HEAD_LEN + kl, vl);
        let value = match bytes_to_string(vb) {
            Ok(s) => s,
            Err(e) => {
                return Err(e);
            },
        };
        let size = ENTRY_HEAD_LEN + kl + vl;
        proof {
            vstd::utf8::decode_utf8_encode_utf8(ks);
            vstd::utf8::decode_utf8_encode_utf8(vs);
        }
        Ok((Entry { key_len: kl, value_len: vl, key, value, cmd_type }, size))
    }

    /// Looks `key` up in the index and reads its record from the
    /// log; fails with `KeyNotFound` when the key is not live.  Under
    /// the invariant the index only points at complete `PUT` records
    /// with well-encoded payloads, so no decode error can surface.
    fn read(&self, key: &Vec<u8>) -> (r: Result<Entry, KvsError>)
        requires
            self.inv_core(),
        ensures
            ({
                let m = entries_map(self.log@, self.index@);
                if m.contains_key(key@) {
                    &&& r is Ok
                    &&& r->Ok_0.cmd_type == CmdType::PUT
                    &&& r->Ok_0.key@ == decode_utf8(key@)
                    &&& r->Ok_0.value@ == decode_utf8(m[key@])
                    &&& encode_utf8(r->Ok_0.value@) == m[key@]
                } else {
                    r == Err::<Entry, KvsError>(KvsError::KeyNotFound)
                }
            }),
    {
        proof {
            lemma_entries_map_contains(self.log@, self.index@);
        }
        match find_key(&self.index, key) {
            Some(i) => {
                proof {
                    assert(entry_ok(self.log@, self.index@[i as int]));
                    lemma_entries_map_at(self.log@, self.index@, i as int);
                }
                let off = self.index[i].off;
                match self.read_at(off) {
                    Ok((entry, _size)) => Ok(entry),
                    Err(e) => {
                        proof {
                            assert(rec_ok(self.log@, off as int));
                            assert(false);
                        }
                        Err(e)
                    },
                }
            },
            None => Err(KvsError::KeyNotFound),
        }
    }

    /// Appends one record to the log and updates the index: a `PUT`
    /// binds the record's key and charges the superseded record, if
    /// any, to the wasted-bytes counter; a `DEL` unbinds it.
    fn write(&mut self, entry: Entry) -> (r: Result<(), KvsError>)
        requires
            old(self).inv_core(),
            entry.wf(),
        ensures
            final(self).inv_core(),
            ({
                let kb = encode_utf8(entry.key@);
                let vb = encode_utf8(entry.value@);
                let m = entries_map(old(self).log@, old(self).index@);
                &&& (r is Ok <==> old(self).log@.len() + 17 + kb.len() + vb.len() <= usize::MAX)
                &&& (r is Err ==> r->Err_0 == KvsError::IO && *final(self) == *old(self))
                &&& (r is Ok ==> {
                    &&& final(self).log@ == old(self).log@ + spec_record_bytes(
                        cmd_type_byte(entry.cmd_type),
                        kb,
                        vb,
                    )
                    &&& entries_map(final(self).log@, final(self).index@) == (
                    if entry.cmd_type == CmdType::PUT {
                        m.insert(kb, vb)
                    } else {
                        m.remove(kb)
                    })
                    &&& final(self).compaction == (if entry.cmd_type == CmdType::PUT {
                        wasted_after_set(m, old(self).compaction, kb)
                    } else {
                        old(self).compaction
                    })
                })
            }),
    {
        let ghost log0 = self.log@;
        let ghost idx0 = self.index@;
        let ghost m = entries_map(log0, idx0);
        let kb = entry.key.as_str().as_bytes_vec();
        let buf = entry.encode();
        if self.log.len() > usize::MAX - buf.len() {
            return Err(KvsError::IO);
        }
        let off = self.log.len();
        let ghost kbs = encode_utf8(entry.key@);
        let ghost vbs = encode_utf8(entry.value@);
        let ghost cmd = cmd_type_byte(entry.cmd_type);
        proof {
            vstd::utf8::encode_utf8_valid_utf8(entry.key@);
            vstd::utf8::encode_utf8_valid_utf8(entry.value@);
        }
        let ghost survivors: Seq<IndexEntry>;
        match find_key(&self.index, &kb) {
            Some(i) => {
                proof {
                    survivors = idx0.remove(i as int);
                    assert(entry_ok(log0, idx0[i as int]));
                    lemma_entries_map_at(log0, idx0, i as int);
                    lemma_entries_map_remove(log0, idx0, i as int);
                    lemma_index_remove_keeps(log0, idx0, i as int);
                }
                if entry.cmd_type == CmdType::PUT {
                    let old_off = self.index[i].off;
                    let okl = u64_read_be_bytes(&self.log, old_off);
                    let ovl = u64_read_be_bytes(&self.log, old_off + 8);
                    let old_size: u64 = 17 + okl + ovl;
                    if old_size <= u64::MAX - self.compaction {
                        self.compaction = self.compaction + old_size;
                    } else {
                        self.compaction = u64::MAX;
                    }
                    proof {
                        assert(rec_key(log0, idx0[i as int].off as int).len() == okl);
                        assert(rec_value(log0, idx0[i as int].off as int).len() == ovl);
                        assert(self.compaction == wasted_after_set(m, old(self).compaction, kbs));
                    }
                }
                self.index.remove(i);
            },
            None => {
                proof {
                    survivors = idx0;
                    lemma_entries_map_contains(log0, idx0);
                    assert(!m.contains_key(kbs));
                    assert(m.remove(kbs) =~= m);
                }
            },
        }
        let ghost e_spec: IndexEntry;
        if entry.cmd_type == CmdType::PUT {
            let e = IndexEntry { key: kb, off };
            proof {
                e_spec = e;
            }
            self.index.push(e);
        } else {
            proof {
                e_spec = IndexEntry { key: kb, off };
            }
        }
        append_bytes(&mut self.log, &buf);
        proof {
            assert(self.log@ == log0 + spec_record_bytes(cmd, kbs, vbs));
            lemma_write_post(log0, m, cmd, kbs, vbs, survivors, self.index@, e_spec);
        }
        Ok(())
    }
}

impl Storage for Bitcask {
    open spec fn inv(&self) -> bool {
        &&& self.inv_core()
        &&& self.compaction < COMPACTION_THRESHOLD
    }

    open spec fn live(&self) -> Map<Seq<u8>, Seq<u8>> {
        entries_map(self.log@, self.index@)
    }

    open spec fn wasted(&self) -> u64 {
        self.compaction
    }

    open spec fn log_size(&self) -> int {
        self.log@.len() as int
    }

    fn get(&mut self, key: String) -> (r: Result<Option<String>, KvsError>) {
        let kb = key.as_str().as_bytes_vec();
        match self.read(&kb) {
            Ok(entry) => Ok(Some(entry.value)),
            Err(KvsError::KeyNotFound) => Ok(None),
            Err(e) => {
                proof {
                    assert(false);
                }
                Err(e)
            },
        }
    }

    fn set(&mut self, key: String, value: String) -> (r: Result<(), KvsError>) {
        let entry = Entry::new(key, value, CmdType::PUT);
        match self.write(entry) {
            Ok(()) => {},
            Err(e) => {
                return Err(e);
            },
        }
        if self.compaction >= COMPACTION_THRESHOLD {
            self.compact();
        }
        Ok(())
    }

    fn remove(&mut self, key: String) -> (r: Result<(), KvsError>) {
        let kb = key.as_str().as_bytes_vec();
        proof {
            lemma_entries_map_contains(self.log@, self.index@);
        }
        match find_key(&self.index, &kb) {
            Some(_) => {
                let entry = Entry::new(key, String::new(), CmdType::DEL);
                proof {
                    assert(encode_utf8(Seq::<char>::empty()) =~= Seq::<u8>::empty());
                }
                match self.write(entry) {
                    Ok(()) => Ok(()),
                    Err(e) => Err(e),
                }
            },
            None => Err(KvsError::KeyNotFound),
        }
    }
}

/// One step of compaction: copying the record of the next live entry
/// onto the end of the new log extends the new index by that key and
/// preserves every invariant of the rewrite loop.
proof fn lemma_compact_step(
    log0: Seq<u8>,
    idx0: Seq<IndexEntry>,
    i: int,
    nl0: Seq<u8>,
    ni0: Seq<IndexEntry>,
    e: IndexEntry,
)
    requires
        0 <= i < idx0.len(),
        forall|j: int| 0 <= j < idx0.len() ==> entry_ok(log0, #[trigger] idx0[j]),
        keys_distinct(idx0),
        ni0.len() == i,
        forall|j: int| 0 <= j < i ==> #[trigger] ni0[j].key@ == idx0[j].key@,
        forall|j: int| 0 <= j < i ==> entry_ok(nl0, #[trigger] ni0[j]),
        keys_distinct(ni0),
        entries_disjoint(nl0, ni0),
        spec_recover(nl0) == (Recovery::Complete {
            end: nl0.len() as int,
            live: entries_map(nl0, ni0),
        }),
        entries_map(nl0, ni0) == entries_map(log0, idx0.subrange(0, i)),
        nl0.len() == entries_bytes(log0, idx0.subrange(0, i)),
        nl0.len() == entries_bytes(nl0, ni0),
        e.key@ == rec_key(log0, idx0[i].off as int),
        e.off == nl0.len(),
    ensures
        ({
            let ks = rec_key(log0, idx0[i].off as int);
            let vs = rec_value(log0, idx0[i].off as int);
            let nl2 = nl0 + spec_record_bytes(1, ks, vs);
            let ni2 = ni0.push(e);
            &&& forall|j: int| 0 <= j < i + 1 ==> #[trigger] ni2[j].key@ == idx0[j].key@
            &&& forall|j: int| 0 <= j < i + 1 ==> entry_ok(nl2, #[trigger] ni2[j])
            &&& keys_distinct(ni2)
            &&& entries_disjoint(nl2, ni2)
            &&& spec_recover(nl2) == (Recovery::Complete {
                end: nl2.len() as int,
                live: entries_map(nl2, ni2),
            })
            &&& entries_map(nl2, ni2) == entries_map(log0, idx0.subrange(0, i + 1))
            &&& nl2.len() == entries_bytes(log0, idx0.subrange(0, i + 1))
            &&& nl2.len() == entries_bytes(nl2, ni2)
        }),
{
    let off0 = idx0[i].off as int;
    let ks = rec_key(log0, off0);
    let vs = rec_value(log0, off0);
    let r = spec_record_bytes(1, ks, vs);
    let nl2 = nl0 + r;
    let ni2 = ni0.push(e);
    assert(entry_ok(log0, idx0[i]));
    assert(rec_cmd(log0, off0) == 1);
    lemma_recover_append_record(nl0, entries_map(nl0, ni0), 1, ks, vs);
    lemma_rec_at_append(nl0, 1, ks, vs);
    lemma_entries_survive_append(nl0, r, ni0);
    assert(entry_ok(nl2, e));
    lemma_entries_map_push(nl2, ni0, e);
    assert(ni2.drop_last() =~= ni0);
    // the new prefix of the old index
    let p2 = idx0.subrange(0, i + 1);
    assert(p2.drop_last() =~= idx0.subrange(0, i));
    assert(p2.last() == idx0[i]);
    assert(entries_map(log0, p2) == entries_map(log0, idx0.subrange(0, i)).insert(ks, vs));
    assert(entries_bytes(log0, p2) == entries_bytes(log0, idx0.subrange(0, i)) + rec_len(
        log0,
        off0,
    ));
    assert(rec_value(nl2, e.off as int) == vs);
    assert(rec_len(nl2, e.off as int) == rec_len(log0, off0));
    assert(entries_map(nl2, ni2) == entries_map(log0, p2));
    assert(entries_bytes(nl2, ni2) == entries_bytes(nl2, ni0) + rec_len(nl2, e.off as int));
    assert(nl2.len() == entries_bytes(nl2, ni2));
    assert forall|j: int| 0 <= j < i + 1 implies #[trigger] ni2[j].key@ == idx0[j].key@ by {
        if j < i {
            assert(ni2[j] == ni0[j]);
        } else {
            assert(ni2[j] == e);
        }
    }
    assert forall|j: int| 0 <= j < i + 1 implies entry_ok(nl2, #[trigger] ni2[j]) by {
        if j < i {
            assert(ni2[j] == ni0[j]);
            assert(entry_ok(nl2, ni0[j]));
        } else {
            assert(ni2[j] == e);
        }
    }
    assert forall|a: int, b: int| 0 <= a < b < ni2.len() implies ni2[a].key@ != ni2[b].key@
        && ni2[a].off + rec_len(nl2, #[trigger] ni2[a].off as int) <= #[trigger] ni2[b].off by {
        assert(ni2[a] == ni0[a]);
        if b == ni2.len() - 1 {
            assert(ni2[b] == e);
            assert(ni2[a].key@ == idx0[a].key@);
            assert(e.key@ == idx0[i].key@);
            assert(entry_ok(nl0, ni0[a]));
            assert(rec_fits(nl0, ni0[a].off as int));
        } else {
            assert(ni2[b] == ni0[b]);
        }
    }
    assert(keys_distinct(ni2));
    assert(entries_disjoint(nl2, ni2));
}

impl Bitcask {
    /// Rewrites the log to contain exactly one `PUT` record per live
    /// key, in index order, and resets the wasted-bytes counter.
    /// The set of live keys and their values are unchanged; the new
    /// log is no longer than the old one and is exactly the total
    /// encoded size of the live records.
    pub fn compact(&mut self)
        requires
            old(self).inv_core(),
        ensures
            final(self).inv(),
            final(self).live() == old(self).live(),
            final(self).wasted() == 0,
            final(self).log_size() == entries_bytes(final(self).log@, final(self).index@),
            final(self).log_size() <= old(self).log_size(),
            final(self).index@.len() == old(self).index@.len(),
            forall|i: int|
                0 <= i < final(self).index@.len() ==> final(self).index@[i].key@ == old(self).index@[i].key@,
    {
        let ghost log0 = self.log@;
        let ghost idx0 = self.index@;
        let n = self.index.len();
        let mut new_log: Vec<u8> = Vec::new();
        let mut new_index: Vec<IndexEntry> = Vec::new();
        let mut i: usize = 0;
        proof {
            lemma_recover_empty();
            assert(idx0.subrange(0, 0) =~= Seq::<IndexEntry>::empty());
        }
        while i < n
            invariant
                self.log@ == log0,
                self.index@ == idx0,
                forall|j: int| 0 <= j < idx0.len() ==> entry_ok(log0, #[trigger] idx0[j]),
                keys_distinct(idx0),
                n == idx0.len(),
                i <= n,
                new_index@.len() == i,
                forall|j: int| 0 <= j < i ==> #[trigger] new_index@[j].key@ == idx0[j].key@,
                forall|j: int| 0 <= j < i ==> entry_ok(new_log@, #[trigger] new_index@[j]),
                keys_distinct(new_index@),
                entries_disjoint(new_log@, new_index@),
                spec_recover(new_log@) == (Recovery::Complete {
                    end: new_log@.len() as int,
                    live: entries_map(new_log@, new_index@),
                }),
                entries_map(new_log@, new_index@) == entries_map(log0, idx0.subrange(0, i as int)),
                new_log@.len() == entries_bytes(log0, idx0.subrange(0, i as int)),
                new_log@.len() == entries_bytes(new_log@, new_index@),
            decreases n - i,
        {
            let ghost nl0 = new_log@;
            let ghost ni0 = new_index@;
            let loglen = self.log.len();
            proof {
                assert(entry_ok(log0, idx0[i as int]));
                assert(rec_fits(log0, idx0[i as int].off as int));
                assert(idx0[i as int].off + rec_len(log0, idx0[i as int].off as int) <= loglen);
            }
            let e_off = self.index[i].off;
            let okl = u64_read_be_bytes(&self.log, e_off);
            let ovl = u64_read_be_bytes(&self.log, e_off + 8);
            let size = ENTRY_HEAD_LEN + okl as usize + ovl as usize;
            let rec = copy_range(&self.log, e_off, size);
            let kb = copy_range(&self.log, e_off + ENTRY_HEAD_LEN, okl as usize);
            let new_off = new_log.len();
            let e = IndexEntry { key: kb, off: new_off };
            proof {
                lemma_rec_bytes_reconstruct(log0, e_off as int);
                assert(rec@ == spec_record_bytes(
                    1,
                    rec_key(log0, e_off as int),
                    rec_value(log0, e_off as int),
                ));
                assert(e.key@ == rec_key(log0, e_off as int));
                lemma_compact_step(log0, idx0, i as int, nl0, ni0, e);
            }
            new_index.push(e);
            append_bytes(&mut new_log, &rec);
            i = i + 1;
        }
        proof {
            assert(idx0.subrange(0, n as int) =~= idx0);
            assert forall|j: int| 0 <= j < idx0.len() implies rec_fits(
                log0,
                #[trigger] idx0[j].off as int,
            ) by {
                assert(entry_ok(log0, idx0[j]));
            }
            lemma_entries_bytes_bounded(log0, idx0);
        }
        self.log = new_log;
        self.index = new_index;
        self.compaction = 0;
    }
}

impl Bitcask {
    /// Recovery: scans the log from offset zero, replaying each
    /// record into the index.  A truncated tail (a partial header or
    /// a payload reaching past the end) marks the end of the usable
    /// log: the scan stops at the last complete record and the log is
    /// cut back to it.  A complete record with an unrecognized
    /// command byte fails with `ReprDecode`; one whose payload is not
    /// valid UTF-8 fails with `StringDecode`.
    #[verifier::rlimit(100)]
    fn load_index(&mut self) -> (r: Result<(), KvsError>)
        requires
            old(self).index@.len() == 0,
            old(self).compaction == 0,
        ensures
            match spec_recover(old(self).log@) {
                Recovery::Complete { end, live } => {
                    &&& r is Ok
                    &&& final(self).inv()
                    &&& final(self).live() == live
                    &&& final(self).log@ == old(self).log@.subrange(0, end)
                    &&& final(self).compaction == 0
                },
                Recovery::BadCmd => r == Err::<(), KvsError>(KvsError::ReprDecode),
                Recovery::BadText => r == Err::<(), KvsError>(KvsError::StringDecode),
            },
    {
        let ghost gl = old(self).log@;
        let mut off: usize = 0;
        loop
            invariant
                gl == old(self).log@,
                self.log@ == gl,
                self.compaction == 0,
                off <= gl.len(),
                forall|j: int|
                    0 <= j < self.index@.len() ==> entry_ok(gl, #[trigger] self.index@[j]),
                forall|j: int|
                    0 <= j < self.index@.len() ==> #[trigger] self.index@[j].off + rec_len(
                        gl,
                        self.index@[j].off as int,
                    ) <= off,
                keys_distinct(self.index@),
                entries_disjoint(gl, self.index@),
                recover_from(gl, 0, Map::empty()) == recover_from(
                    gl,
                    off as int,
                    entries_map(gl, self.index@),
                ),
            ensures
                self.log@ == gl,
                self.compaction == 0,
                off <= gl.len(),
                forall|j: int|
                    0 <= j < self.index@.len() ==> entry_ok(gl, #[trigger] self.index@[j]),
                forall|j: int|
                    0 <= j < self.index@.len() ==> #[trigger] self.index@[j].off + rec_len(
                        gl,
                        self.index@[j].off as int,
                    ) <= off,
                keys_distinct(self.index@),
                entries_disjoint(gl, self.index@),
                !rec_fits(gl, off as int),
                recover_from(gl, 0, Map::empty()) == (Recovery::Complete {
                    end: off as int,
                    live: entries_map(gl, self.index@),
                }),
            decreases gl.len() - off,
        {
            let ghost m0 = entries_map(gl, self.index@);
            let ghost idxa = self.index@;
            match self.read_at(off) {
                Err(e) => {
                    match e {
                        KvsError::ReprDecode => {
                            proof {
                                assert(recover_from(gl, off as int, m0) == Recovery::BadCmd);
                            }
                            return Err(KvsError::ReprDecode);
                        },
                        KvsError::StringDecode => {
                            proof {
                                assert(recover_from(gl, off as int, m0) == Recovery::BadText);
                            }
                            return Err(KvsError::StringDecode);
                        },
                        _ => {
                            proof {
                                assert(!rec_fits(gl, off as int));
                            }
                            break;
                        },
                    }
                },
                Ok((entry, size)) => {
                    let llen = self.log.len();
                    proof {
                        assert(rec_ok(gl, off as int));
                        assert(off + size <= llen);
                    }
                    let kb = entry.key.as_str().as_bytes_vec();
                    proof {
                        assert(kb@ == rec_key(gl, off as int));
                    }
                    match entry.cmd_type {
                        CmdType::DEL => {
                            match find_key(&self.index, &kb) {
                                Some(i) => {
                                    proof {
                                        lemma_entries_map_remove(gl, idxa, i as int);
                                        lemma_index_remove_keeps(gl, idxa, i as int);
                                    }
                                    self.index.remove(i);
                                },
                                None => {
                                    proof {
                                        lemma_entries_map_contains(gl, idxa);
                                        assert(!m0.contains_key(kb@));
                                        assert(m0.remove(kb@) =~= m0);
                                    }
                                },
                            }
                            proof {
                                assert(entries_map(gl, self.index@) == m0.remove(
                                    rec_key(gl, off as int),
                                ));
                            }
                        },
                        CmdType::PUT => {
                            match find_key(&self.index, &kb) {
                                Some(i) => {
                                    proof {
                                        lemma_entries_map_remove(gl, idxa, i as int);
                                        lemma_index_remove_keeps(gl, idxa, i as int);
                                    }
                                    self.index.remove(i);
                                },
                                None => {
                                    proof {
                                        lemma_entries_map_contains(gl, idxa);
                                        assert(!m0.contains_key(kb@));
                                        assert(m0.remove(kb@) =~= m0);
                                    }
                                },
                            }
                            let ghost idxb = self.index@;
                            let e = IndexEntry { key: kb, off };
                            proof {
                                lemma_entries_map_push(gl, idxb, e);
                                assert(entries_map(gl, idxb) == m0.remove(kb@));
                                assert(m0.remove(kb@).insert(kb@, rec_value(gl, off as int))
                                    =~= m0.insert(kb@, rec_value(gl, off as int)));
                            }
                            self.index.push(e);
                            proof {
                                let idx2 = self.index@;
                                assert forall|a: int, b: int| 0 <= a < b < idx2.len() implies
                                    idx2[a].key@ != idx2[b].key@ && idx2[a].off + rec_len(
                                    gl,
                                    #[trigger] idx2[a].off as int,
                                ) <= #[trigger] idx2[b].off by {
                                    assert(idx2[a] == idxb[a]);
                                    if b < idx2.len() - 1 {
                                        assert(idx2[b] == idxb[b]);
                                    } else {
                                        assert(idx2[b] == e);
                                    }
                                }
                                assert(keys_distinct(idx2));
                                assert(entries_disjoint(gl, idx2));
                                assert(entry_ok(gl, e));
                            }
                        },
                    }
                    off = off + size;
                },
            }
        }
        let end = self.log.len();
        if off < end {
            self.log.truncate(off);
        }
        proof {
            lemma_recover_prefix(gl, 0, Map::empty());
            let p = gl.subrange(0, off as int);
            assert(self.log@ =~= p);
            let idx2 = self.index@;
            assert forall|j: int| 0 <= j < idx2.len() implies entry_ok(p, #[trigger] idx2[j])
                && rec_value(p, idx2[j].off as int) == rec_value(gl, idx2[j].off as int)
                && rec_len(p, idx2[j].off as int) == rec_len(gl, idx2[j].off as int) by {
                assert(entry_ok(gl, idx2[j]));
                lemma_rec_agree_prefix(gl, off as int, idx2[j].off as int);
            }
            crate::index::lemma_entries_map_same_values(gl, p, idx2);
            assert(entries_map(p, idx2) == entries_map(gl, idx2));
            assert(spec_recover(p) == (Recovery::Complete {
                end: off as int,
                live: entries_map(p, idx2),
            }));
        }
        Ok(())
    }

    /// Opens an engine on the contents of a data file: rebuilds the
    /// index by replaying the records from the start, with a zero
    /// wasted-bytes counter.
    pub fn open(data: Vec<u8>) -> (r: Result<Bitcask, KvsError>)
        ensures
            match spec_recover(data@) {
                Recovery::Complete { end, live } => {
                    &&& r is Ok
                    &&& r->Ok_0.inv()
                    &&& r->Ok_0.live() == live
                    &&& r->Ok_0.log@ == data@.subrange(0, end)
                    &&& r->Ok_0.wasted() == 0
                },
                Recovery::BadCmd => r == Err::<Bitcask, KvsError>(KvsError::ReprDecode),
                Recovery::BadText => r == Err::<Bitcask, KvsError>(KvsError::StringDecode),
            },
    {
        let mut store = Bitcask { log: data, index: Vec::new(), compaction: 0 };
        match store.load_index() {
            Ok(()) => Ok(store),
            Err(e) => Err(e),
        }
    }
}

/// The round-trip law behind reopening a directory: the log of a
/// well-formed engine replays to exactly the engine's live map, so
/// `Bitcask::open` on those bytes rebuilds an engine with the same
/// observable state (see the `Complete` case of `open`'s contract).
pub proof fn lemma_log_round_trip(b: Bitcask)
    requires
        b.inv(),
    ensures
        spec_recover(b.log@) == (Recovery::Complete {
            end: b.log@.len() as int,
            live: b.live(),
        }),
{
}

} // verus!
