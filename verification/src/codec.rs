//! The on-disk record codec.
//!
//! One record is laid out as
//! `[key_len: 8 bytes BE][value_len: 8 bytes BE][cmd_type: 1 byte][key][value]`,
//! where the key and the value are the UTF-8 bytes of the strings and
//! the lengths count those bytes.  The command type is `1` for `PUT`
//! and `2` for `DEL`; a `DEL` record carries an empty value.

use vstd::prelude::*;
use vstd::utf8::encode_utf8;

use crate::big_endian::{
    spec_u64_from_be_bytes, spec_u64_to_be_bytes, u64_read_be_bytes, u64_write_be_bytes,
};
use crate::error::KvsError;

verus! {

broadcast use vstd::std_specs::vec::group_vec_axioms;

/// Size in bytes of the fixed record header: two 8-byte lengths and
/// one command-type byte.
pub const ENTRY_HEAD_LEN: usize = 17;

/// The kind of a log record: an insertion or a deletion.
#[allow(non_camel_case_types)]
#[derive(Clone, Copy, Debug, PartialEq, Eq, Structural)]
pub enum CmdType {
    PUT,
    DEL,
}

/// The single byte that encodes a command type.
pub open spec fn cmd_type_byte(c: CmdType) -> u8 {
    match c {
        CmdType::PUT => 1,
        CmdType::DEL => 2,
    }
}

/// The full encoding of one record with the given command byte, key
/// bytes and value bytes.
pub open spec fn spec_record_bytes(cmd: u8, key: Seq<u8>, value: Seq<u8>) -> Seq<u8>
    recommends
        key.len() <= u64::MAX,
        value.len() <= u64::MAX,
{
    spec_u64_to_be_bytes(key.len() as u64) + spec_u64_to_be_bytes(value.len() as u64) + seq![cmd]
        + key + value
}

/// An in-memory record: the unit of persistence.
pub struct Entry {
    pub key_len: usize,
    pub value_len: usize,
    pub key: String,
    pub value: String,
    pub cmd_type: CmdType,
}

impl Entry {
    /// The length fields agree with the UTF-8 byte lengths of the key
    /// and the value.
    pub open spec fn wf(self) -> bool {
        &&& self.key_len == encode_utf8(self.key@).len()
        &&& self.value_len == encode_utf8(self.value@).len()
    }

    /// Builds a record for the given key, value and command type; the
    /// length fields are filled in from the strings.
    pub fn new(key: String, value: String, cmd_type: CmdType) -> (e: Entry)
        ensures
            e.wf(),
            e.key == key,
            e.value == value,
            e.cmd_type == cmd_type,
    {
        let key_len = key.as_str().as_bytes().len();
        let value_len = value.as_str().as_bytes().len();
        Entry { key_len, value_len, key, value, cmd_type }
    }

    /// The number of bytes this record occupies on disk.
    pub fn size(&self) -> (n: usize)
        requires
            ENTRY_HEAD_LEN + self.key_len + self.value_len <= usize::MAX,
        ensures
            n == ENTRY_HEAD_LEN + self.key_len + self.value_len,
    {
        ENTRY_HEAD_LEN + self.key_len + self.value_len
    }

    /// Encodes this record to bytes: header first, then the key bytes,
    /// then the value bytes.
    pub fn encode(&self) -> (buf: Vec<u8>)
        ensures
            buf@ == spec_u64_to_be_bytes(self.key_len as u64) + spec_u64_to_be_bytes(
                self.value_len as u64,
            ) + seq![cmd_type_byte(self.cmd_type)] + encode_utf8(self.key@) + encode_utf8(
                self.value@,
            ),
            self.wf() ==> buf@ == spec_record_bytes(
                cmd_type_byte(self.cmd_type),
                encode_utf8(self.key@),
                encode_utf8(self.value@),
            ),
    {
        let mut buf: Vec<u8> = Vec::new();
        u64_write_be_bytes(&mut buf, self.key_len as u64);
        u64_write_be_bytes(&mut buf, self.value_len as u64);
        match self.cmd_type {
            CmdType::PUT => buf.push(1u8),
            CmdType::DEL => buf.push(2u8),
        }
        buf.extend_from_slice(self.key.as_str().as_bytes());
        buf.extend_from_slice(self.value.as_str().as_bytes());
        proof {
            assert(buf@ =~= spec_u64_to_be_bytes(self.key_len as u64) + spec_u64_to_be_bytes(
                self.value_len as u64,
            ) + seq![cmd_type_byte(self.cmd_type)] + encode_utf8(self.key@) + encode_utf8(
                self.value@,
            ));
        }
        buf
    }

    /// Decodes the three header fields from a header-sized byte slice.
    ///
    /// Fails with `SliceDecode` if the slice is not exactly the header
    /// size, and with `ReprDecode` if the command-type byte is not a
    /// recognized variant or a length field does not fit this machine.
    /// The key and value of the returned record are empty: the payload
    /// is not part of the codec.
    pub fn decode(buf: &Vec<u8>) -> (r: Result<Entry, KvsError>)
        ensures
            buf@.len() != ENTRY_HEAD_LEN ==> r == Err::<Entry, KvsError>(KvsError::SliceDecode),
            buf@.len() == ENTRY_HEAD_LEN ==> {
                let kl = spec_u64_from_be_bytes(buf@.subrange(0, 8));
                let vl = spec_u64_from_be_bytes(buf@.subrange(8, 16));
                let cmd = buf@[16];
                if (cmd == 1 || cmd == 2) && kl <= usize::MAX && vl <= usize::MAX {
                    &&& r is Ok
                    &&& r->Ok_0.key_len == kl
                    &&& r->Ok_0.value_len == vl
                    &&& r->Ok_0.cmd_type == (if cmd == 1 {
                        CmdType::PUT
                    } else {
                        CmdType::DEL
                    })
                    &&& r->Ok_0.key@ == Seq::<char>::empty()
                    &&& r->Ok_0.value@ == Seq::<char>::empty()
                } else {
                    r == Err::<Entry, KvsError>(KvsError::ReprDecode)
                }
            },
    {
        if buf.len() != ENTRY_HEAD_LEN {
            return Err(KvsError::SliceDecode);
        }
        let kl = u64_read_be_bytes(buf, 0);
        let vl = u64_read_be_bytes(buf, 8);
        if kl > (usize::MAX as u64) || vl > (usize::MAX as u64) {
            return Err(KvsError::ReprDecode);
        }
        let cmd_type = match buf[16] {
            1u8 => CmdType::PUT,
            2u8 => CmdType::DEL,
            _ => {
                return Err(KvsError::ReprDecode);
            },
        };
        Ok(
            Entry {
                key_len: kl as usize,
                value_len: vl as usize,
                key: String::new(),
                value: String::new(),
                cmd_type,
            },
        )
    }
}

} // verus!
