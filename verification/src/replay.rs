//! The meaning of a log: records at offsets, and the replay of a whole
//! log into the map of live keys.
//!
//! `recover_from` walks a byte sequence record by record, exactly as
//! the recovery scan at open does: a `PUT` inserts the key, a `DEL`
//! removes it.  The walk stops cleanly at the first offset where no
//! complete record remains (the end of the file, or a truncated tail),
//! and fails on a record whose command byte is unrecognized or whose
//! payload is not valid UTF-8.

use vstd::prelude::*;
use vstd::utf8::valid_utf8;

use crate::big_endian::{
    lemma_u64_be_bytes_round_trip, spec_u64_from_be_bytes, spec_u64_to_be_bytes,
};
use crate::codec::spec_record_bytes;

verus! {

broadcast use vstd::map::group_map_axioms;

/// The key length stored in the record header at `off`.
pub open spec fn rec_key_len(log: Seq<u8>, off: int) -> u64 {
    spec_u64_from_be_bytes(log.subrange(off, off + 8))
}

/// The value length stored in the record header at `off`.
pub open spec fn rec_value_len(log: Seq<u8>, off: int) -> u64 {
    spec_u64_from_be_bytes(log.subrange(off + 8, off + 16))
}

/// The command byte of the record at `off`.
pub open spec fn rec_cmd(log: Seq<u8>, off: int) -> u8 {
    log[off + 16]
}

/// The total encoded size of the record at `off`.
pub open spec fn rec_len(log: Seq<u8>, off: int) -> int {
    17 + rec_key_len(log, off) + rec_value_len(log, off)
}

/// A complete record (header and payload) lies at `off`.
pub open spec fn rec_fits(log: Seq<u8>, off: int) -> bool {
    &&& 0 <= off
    &&& off + 17 <= log.len()
    &&& off + rec_len(log, off) <= log.len()
}

/// The key bytes of the record at `off`.
pub open spec fn rec_key(log: Seq<u8>, off: int) -> Seq<u8> {
    log.subrange(off + 17, off + 17 + rec_key_len(log, off))
}

/// The value bytes of the record at `off`.
pub open spec fn rec_value(log: Seq<u8>, off: int) -> Seq<u8> {
    log.subrange(off + 17 + rec_key_len(log, off), off + rec_len(log, off))
}

/// A complete, recognized, well-encoded record lies at `off`.
pub open spec fn rec_ok(log: Seq<u8>, off: int) -> bool {
    &&& rec_fits(log, off)
    &&& (rec_cmd(log, off) == 1 || rec_cmd(log, off) == 2)
    &&& valid_utf8(rec_key(log, off))
    &&& valid_utf8(rec_value(log, off))
}

/// The outcome of replaying a log.
pub enum Recovery {
    /// The walk stopped cleanly at offset `end` with the live map
    /// `live`.  `end` is the length of the log when no record is
    /// truncated, and the start of the truncated tail otherwise.
    Complete { end: int, live: Map<Seq<u8>, Seq<u8>> },
    /// A complete record had an unrecognized command byte.
    BadCmd,
    /// A complete record had a key or value that is not valid UTF-8.
    BadText,
}

/// Replays `log` from `off` with the live map accumulated so far.
pub open spec fn recover_from(log: Seq<u8>, off: int, acc: Map<Seq<u8>, Seq<u8>>) -> Recovery
    recommends
        0 <= off <= log.len(),
    decreases log.len() - off,
{
    if off < 0 || off > log.len() {
        Recovery::Complete { end: off, live: acc }
    } else if !rec_fits(log, off) {
        Recovery::Complete { end: off, live: acc }
    } else if !(rec_cmd(log, off) == 1 || rec_cmd(log, off) == 2) {
        Recovery::BadCmd
    } else if !(valid_utf8(rec_key(log, off)) && valid_utf8(rec_value(log, off))) {
        Recovery::BadText
    } else if rec_cmd(log, off) == 1 {
        recover_from(
            log,
            off + rec_len(log, off),
            acc.insert(rec_key(log, off), rec_value(log, off)),
        )
    } else {
        recover_from(log, off + rec_len(log, off), acc.remove(rec_key(log, off)))
    }
}

/// Replays a whole log from the start with no live keys.
pub open spec fn spec_recover(log: Seq<u8>) -> Recovery {
    recover_from(log, 0, Map::empty())
}

/// A record that fits entirely below `cut` reads the same in the
/// prefix `log[..cut]` and in `log` itself.
pub proof fn lemma_rec_agree_prefix(log: Seq<u8>, cut: int, off: int)
    requires
        rec_fits(log, off),
        off + rec_len(log, off) <= cut <= log.len(),
    ensures
        ({
            let p = log.subrange(0, cut);
            &&& rec_fits(p, off)
            &&& rec_key_len(p, off) == rec_key_len(log, off)
            &&& rec_value_len(p, off) == rec_value_len(log, off)
            &&& rec_cmd(p, off) == rec_cmd(log, off)
            &&& rec_len(p, off) == rec_len(log, off)
            &&& rec_key(p, off) == rec_key(log, off)
            &&& rec_value(p, off) == rec_value(log, off)
        }),
{
    let p = log.subrange(0, cut);
    assert(p.subrange(off, off + 8) =~= log.subrange(off, off + 8));
    assert(p.subrange(off + 8, off + 16) =~= log.subrange(off + 8, off + 16));
    assert(p[off + 16] == log[off + 16]);
    assert(p.subrange(off + 17, off + 17 + rec_key_len(log, off)) =~= log.subrange(
        off + 17,
        off + 17 + rec_key_len(log, off),
    ));
    assert(p.subrange(off + 17 + rec_key_len(log, off), off + rec_len(log, off)) =~= log.subrange(
        off + 17 + rec_key_len(log, off),
        off + rec_len(log, off),
    ));
}

/// A record that fits in `log` reads the same after more bytes are
/// appended.
pub proof fn lemma_rec_agree_extend(log: Seq<u8>, ext: Seq<u8>, off: int)
    requires
        rec_fits(log, off),
    ensures
        ({
            let l2 = log + ext;
            &&& rec_fits(l2, off)
            &&& rec_key_len(l2, off) == rec_key_len(log, off)
            &&& rec_value_len(l2, off) == rec_value_len(log, off)
            &&& rec_cmd(l2, off) == rec_cmd(log, off)
            &&& rec_len(l2, off) == rec_len(log, off)
            &&& rec_key(l2, off) == rec_key(log, off)
            &&& rec_value(l2, off) == rec_value(log, off)
        }),
{
    let l2 = log + ext;
    assert(l2.subrange(off, off + 8) =~= log.subrange(off, off + 8));
    assert(l2.subrange(off + 8, off + 16) =~= log.subrange(off + 8, off + 16));
    assert(l2[off + 16] == log[off + 16]);
    assert(l2.subrange(off + 17, off + 17 + rec_key_len(log, off)) =~= log.subrange(
        off + 17,
        off + 17 + rec_key_len(log, off),
    ));
    assert(l2.subrange(off + 17 + rec_key_len(log, off), off + rec_len(log, off)) =~= log.subrange(
        off + 17 + rec_key_len(log, off),
        off + rec_len(log, off),
    ));
}

/// A walk that consumed `log` completely continues past the old end
/// after more bytes are appended: replaying the extended log from
/// `off` equals replaying it from the old end with the map the first
/// walk produced.
pub proof fn lemma_recover_extend(log: Seq<u8>, ext: Seq<u8>, off: int, acc: Map<Seq<u8>, Seq<u8>>)
    requires
        0 <= off <= log.len(),
        recover_from(log, off, acc) is Complete,
        recover_from(log, off, acc)->end == log.len(),
    ensures
        recover_from(log + ext, off, acc) == recover_from(
            log + ext,
            log.len() as int,
            recover_from(log, off, acc)->live,
        ),
    decreases log.len() - off,
{
    if !rec_fits(log, off) {
        assert(recover_from(log, off, acc) == Recovery::Complete { end: off, live: acc });
        assert(off == log.len());
    } else {
        lemma_rec_agree_extend(log, ext, off);
        let off2 = off + rec_len(log, off);
        if rec_cmd(log, off) == 1 {
            lemma_recover_extend(
                log,
                ext,
                off2,
                acc.insert(rec_key(log, off), rec_value(log, off)),
            );
        } else {
            lemma_recover_extend(log, ext, off2, acc.remove(rec_key(log, off)));
        }
    }
}

/// A walk that stopped cleanly at `end` reads the same on the prefix
/// `log[..end]`, where it consumes every byte.
pub proof fn lemma_recover_prefix(log: Seq<u8>, off: int, acc: Map<Seq<u8>, Seq<u8>>)
    requires
        0 <= off <= log.len(),
        recover_from(log, off, acc) is Complete,
    ensures
        off <= recover_from(log, off, acc)->end <= log.len(),
        ({
            let end = recover_from(log, off, acc)->end;
            recover_from(log.subrange(0, end), off, acc) == Recovery::Complete {
                end,
                live: recover_from(log, off, acc)->live,
            }
        }),
    decreases log.len() - off,
{
    let end = recover_from(log, off, acc)->end;
    if !rec_fits(log, off) {
        assert(end == off);
        let p = log.subrange(0, end);
        assert(p.len() == end);
        assert(!rec_fits(p, off));
    } else {
        let off2 = off + rec_len(log, off);
        let p = log.subrange(0, end);
        if rec_cmd(log, off) == 1 {
            lemma_recover_prefix(log, off2, acc.insert(rec_key(log, off), rec_value(log, off)));
        } else {
            lemma_recover_prefix(log, off2, acc.remove(rec_key(log, off)));
        }
        assert(off2 <= end);
        lemma_rec_agree_prefix(log, end, off);
    }
}

/// The bytes of one encoded record appended to `log` parse back as
/// that record at the old end of the log.
pub proof fn lemma_rec_at_append(log: Seq<u8>, cmd: u8, key: Seq<u8>, value: Seq<u8>)
    requires
        key.len() <= u64::MAX,
        value.len() <= u64::MAX,
    ensures
        ({
            let l2 = log + spec_record_bytes(cmd, key, value);
            let off = log.len() as int;
            &&& rec_fits(l2, off)
            &&& rec_key_len(l2, off) == key.len()
            &&& rec_value_len(l2, off) == value.len()
            &&& rec_cmd(l2, off) == cmd
            &&& rec_len(l2, off) == 17 + key.len() + value.len()
            &&& off + rec_len(l2, off) == l2.len()
            &&& rec_key(l2, off) == key
            &&& rec_value(l2, off) == value
        }),
{
    let r = spec_record_bytes(cmd, key, value);
    let l2 = log + r;
    let off = log.len() as int;
    lemma_u64_be_bytes_round_trip(key.len() as u64);
    lemma_u64_be_bytes_round_trip(value.len() as u64);
    assert(l2.subrange(off, off + 8) =~= spec_u64_to_be_bytes(key.len() as u64));
    assert(l2.subrange(off + 8, off + 16) =~= spec_u64_to_be_bytes(value.len() as u64));
    assert(rec_key_len(l2, off) == key.len());
    assert(rec_value_len(l2, off) == value.len());
    assert(l2[off + 16] == r[16]);
    assert(r[16] == cmd);
    assert(rec_fits(l2, off));
    assert(l2.subrange(off + 17, off + 17 + key.len()) =~= key);
    assert(l2.subrange(off + 17 + key.len(), off + 17 + key.len() + value.len()) =~= value);
}

/// Appending one well-formed record to a fully replayed log replays
/// to the same map with that record applied: a `PUT` inserts its key,
/// a `DEL` removes it.
pub proof fn lemma_recover_append_record(
    log: Seq<u8>,
    m: Map<Seq<u8>, Seq<u8>>,
    cmd: u8,
    key: Seq<u8>,
    value: Seq<u8>,
)
    requires
        spec_recover(log) == (Recovery::Complete { end: log.len() as int, live: m }),
        cmd == 1 || cmd == 2,
        valid_utf8(key),
        valid_utf8(value),
        key.len() <= u64::MAX,
        value.len() <= u64::MAX,
    ensures
        ({
            let l2 = log + spec_record_bytes(cmd, key, value);
            spec_recover(l2) == (Recovery::Complete {
                end: l2.len() as int,
                live: if cmd == 1 {
                    m.insert(key, value)
                } else {
                    m.remove(key)
                },
            })
        }),
{
    let r = spec_record_bytes(cmd, key, value);
    let l2 = log + r;
    let off = log.len() as int;
    lemma_recover_extend(log, r, 0, Map::empty());
    lemma_rec_at_append(log, cmd, key, value);
    assert(l2.len() == off + 17 + key.len() + value.len());
    let m2: Map<Seq<u8>, Seq<u8>> = if cmd == 1 {
        m.insert(key, value)
    } else {
        m.remove(key)
    };
    assert(recover_from(l2, off + rec_len(l2, off), m2) == (Recovery::Complete {
        end: l2.len() as int,
        live: m2,
    }));
    assert(recover_from(l2, off, m) == recover_from(l2, off + rec_len(l2, off), m2));
}

/// The bytes a complete record occupies in the log are exactly the
/// encoding of its fields.
pub proof fn lemma_rec_bytes_reconstruct(log: Seq<u8>, off: int)
    requires
        rec_fits(log, off),
    ensures
        log.subrange(off, off + rec_len(log, off)) == spec_record_bytes(
            rec_cmd(log, off),
            rec_key(log, off),
            rec_value(log, off),
        ),
{
    let kl = rec_key_len(log, off) as int;
    let vl = rec_value_len(log, off) as int;
    let r = spec_record_bytes(rec_cmd(log, off), rec_key(log, off), rec_value(log, off));
    let s = log.subrange(off, off + rec_len(log, off));
    crate::big_endian::lemma_u64_be_bytes_inverse(log.subrange(off, off + 8));
    crate::big_endian::lemma_u64_be_bytes_inverse(log.subrange(off + 8, off + 16));
    assert(rec_key(log, off).len() == kl);
    assert(rec_value(log, off).len() == vl);
    assert forall|i: int| 0 <= i < s.len() implies s[i] == r[i] by {
        if i < 8 {
            assert(r[i] == log.subrange(off, off + 8)[i]);
        } else if i < 16 {
            assert(r[i] == log.subrange(off + 8, off + 16)[i - 8]);
        } else if i == 16 {
        } else if i < 17 + kl {
            assert(r[i] == rec_key(log, off)[i - 17]);
        } else {
            assert(r[i] == rec_value(log, off)[i - 17 - kl]);
        }
    }
    assert(s =~= r);
}

/// The empty log replays to the empty map.
pub proof fn lemma_recover_empty()
    ensures
        spec_recover(Seq::<u8>::empty()) == (Recovery::Complete {
            end: 0,
            live: Map::<Seq<u8>, Seq<u8>>::empty(),
        }),
{
    assert(!rec_fits(Seq::<u8>::empty(), 0));
}

} // verus!
