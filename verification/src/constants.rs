//! Sizes, page numbers and the fixed-size records of the two files.
use vstd::prelude::*;
use crate::bytes::{
    enc16, enc32, enc64, le16, le32, le64, lemma_enc16, lemma_enc32, lemma_enc64, lemma_le_window,
    push_u16, push_u32, push_u64, read_u16, read_u32, read_u64,
};

verus! {

pub const PAGE_SIZE: usize = 4096;

pub type PageId = u64;

pub const INVALID_PAGE_ID: PageId = 0xffff_ffff_ffff_ffff;

pub const META_PAGE_ID: PageId = 0;

pub const ROOT_PAGE_ID: PageId = 1;

pub const MAX_KEY_SIZE: usize = 1024;

pub const MAX_VALUE_SIZE: usize = PAGE_SIZE / 2;

pub const DB_VERSION: u32 = 1;

/// The text "TOKIMOBD".
pub const MAGIC: u64 = 0x544F4B494D4F4442;

/// Size of an encoded `MetaData`.
pub const META_SIZE: usize = 48;

/// Size of an encoded `NodeHeader`.
pub const HEADER_SIZE: usize = 5;

/// Size of an encoded `WalRecordHeader`.
pub const WAL_HEADER_SIZE: usize = 11;

/// The record at the start of the data file.
#[derive(Debug, Clone, Copy)]
pub struct MetaData {
    pub magic: u64,
    pub version: u32,
    pub page_size: u32,
    pub root_page: PageId,
    pub freelist_page: PageId,
    pub last_page_id: PageId,
    pub wal_offset: u64,
}

impl MetaData {
    /// The metadata of a database that holds nothing.
    pub open spec fn fresh() -> Self {
        MetaData {
            magic: MAGIC,
            version: DB_VERSION,
            page_size: PAGE_SIZE as u32,
            root_page: ROOT_PAGE_ID,
            freelist_page: INVALID_PAGE_ID,
            last_page_id: ROOT_PAGE_ID,
            wal_offset: 0,
        }
    }

    /// The record was written by this version of the program.
    pub open spec fn valid(self) -> bool {
        self.magic == MAGIC && self.version == DB_VERSION
    }

    /// The bytes of the record.
    pub open spec fn encoded(self) -> Seq<u8> {
        enc64(self.magic) + enc32(self.version) + enc32(self.page_size) + enc64(self.root_page)
            + enc64(self.freelist_page) + enc64(self.last_page_id) + enc64(self.wal_offset)
    }

    /// The record that starts a run of bytes.
    pub open spec fn decoded(b: Seq<u8>) -> Self {
        MetaData {
            magic: le64(b, 0),
            version: le32(b, 8),
            page_size: le32(b, 12),
            root_page: le64(b, 16),
            freelist_page: le64(b, 24),
            last_page_id: le64(b, 32),
            wal_offset: le64(b, 40),
        }
    }

    /// Every record takes the same space.
    pub proof fn lemma_encoded_len(self)
        ensures
            self.encoded().len() == META_SIZE,
    {
        lemma_enc64(self.magic);
        lemma_enc32(self.version);
        lemma_enc32(self.page_size);
        lemma_enc64(self.root_page);
        lemma_enc64(self.freelist_page);
        lemma_enc64(self.last_page_id);
        lemma_enc64(self.wal_offset);
    }

    /// What was encoded at the start of a run of bytes is decoded from it.
    pub proof fn lemma_decoded(self, b: Seq<u8>)
        requires
            b.len() >= META_SIZE,
            b.subrange(0, META_SIZE as int) == self.encoded(),
        ensures
            self.encoded().len() == META_SIZE,
            Self::decoded(b) == self,
    {
        let e = self.encoded();
        let s = b.subrange(0, META_SIZE as int);
        lemma_enc64(self.magic);
        lemma_enc32(self.version);
        lemma_enc32(self.page_size);
        lemma_enc64(self.root_page);
        lemma_enc64(self.freelist_page);
        lemma_enc64(self.last_page_id);
        lemma_enc64(self.wal_offset);
        assert(forall|j: int| 0 <= j < META_SIZE ==> b[j] == s[j]);
        assert(forall|j: int| 0 <= j < META_SIZE ==> b[j] == e[j]);
        lemma_le_window(b, 0, enc64(self.magic), 0, 8);
        lemma_le_window(b, 8, enc32(self.version), 0, 4);
        lemma_le_window(b, 12, enc32(self.page_size), 0, 4);
        lemma_le_window(b, 16, enc64(self.root_page), 0, 8);
        lemma_le_window(b, 24, enc64(self.freelist_page), 0, 8);
        lemma_le_window(b, 32, enc64(self.last_page_id), 0, 8);
        lemma_le_window(b, 40, enc64(self.wal_offset), 0, 8);
    }

    pub fn new() -> (m: Self)
        ensures
            m == Self::fresh(),
    {
        MetaData {
            magic: MAGIC,
            version: DB_VERSION,
            page_size: PAGE_SIZE as u32,
            root_page: ROOT_PAGE_ID,
            freelist_page: INVALID_PAGE_ID,
            last_page_id: ROOT_PAGE_ID,
            wal_offset: 0,
        }
    }

    pub fn is_valid(&self) -> (r: bool)
        ensures
            r == self.valid(),
    {
        self.magic == MAGIC && self.version == DB_VERSION
    }

    pub fn as_bytes(&self) -> (b: Vec<u8>)
        ensures
            b@ == self.encoded(),
            b@.len() == META_SIZE,
    {
        let mut b: Vec<u8> = Vec::with_capacity(META_SIZE);
        push_u64(&mut b, self.magic);
        push_u32(&mut b, self.version);
        push_u32(&mut b, self.page_size);
        push_u64(&mut b, self.root_page);
        push_u64(&mut b, self.freelist_page);
        push_u64(&mut b, self.last_page_id);
        push_u64(&mut b, self.wal_offset);
        proof {
            lemma_enc64(self.magic);
            lemma_enc32(self.version);
            lemma_enc32(self.page_size);
            lemma_enc64(self.root_page);
            lemma_enc64(self.freelist_page);
            lemma_enc64(self.last_page_id);
            lemma_enc64(self.wal_offset);
            assert(b@ =~= self.encoded());
        }
        b
    }

    pub fn from_bytes(bytes: &[u8]) -> (m: Self)
        requires
            bytes@.len() >= META_SIZE,
        ensures
            m == Self::decoded(bytes@),
    {
        MetaData {
            magic: read_u64(bytes, 0),
            version: read_u32(bytes, 8),
            page_size: read_u32(bytes, 12),
            root_page: read_u64(bytes, 16),
            freelist_page: read_u64(bytes, 24),
            last_page_id: read_u64(bytes, 32),
            wal_offset: read_u64(bytes, 40),
        }
    }
}

/// The two kinds of tree pages.
#[derive(Debug, Clone, Copy, PartialEq, Eq, Structural)]
pub enum NodeType {
    Leaf,
    Internal,
}

impl NodeType {
    /// The byte that stands for the kind.
    pub open spec fn code(self) -> u8 {
        match self {
            NodeType::Leaf => 1,
            NodeType::Internal => 2,
        }
    }

    /// The byte stands for a kind.
    pub open spec fn is_code(b: u8) -> bool {
        b == 1 || b == 2
    }

    /// The kind that a byte stands for.
    pub open spec fn of_code(b: u8) -> Self {
        if b == 1 {
            NodeType::Leaf
        } else {
            NodeType::Internal
        }
    }
}

/// The record at the start of a tree page.
#[derive(Debug, Clone, Copy)]
pub struct NodeHeader {
    pub node_type: NodeType,
    pub num_keys: u16,
    pub _reserved: u16,
}

impl NodeHeader {
    /// The bytes of the record.
    pub open spec fn encoded(self) -> Seq<u8> {
        seq![self.node_type.code()] + enc16(self.num_keys) + enc16(self._reserved)
    }

    /// The record that starts a run of bytes.
    pub open spec fn decoded(b: Seq<u8>) -> Self {
        NodeHeader {
            node_type: NodeType::of_code(b[0]),
            num_keys: le16(b, 1),
            _reserved: le16(b, 3),
        }
    }

    /// Every header takes the same space.
    pub proof fn lemma_encoded_len(self)
        ensures
            self.encoded().len() == HEADER_SIZE,
    {
        lemma_enc16(self.num_keys);
        lemma_enc16(self._reserved);
    }

    /// What was encoded at the start of a run of bytes is decoded from it.
    pub proof fn lemma_decoded(self, b: Seq<u8>)
        requires
            b.len() >= HEADER_SIZE,
            b.subrange(0, HEADER_SIZE as int) == self.encoded(),
        ensures
            self.encoded().len() == HEADER_SIZE,
            NodeType::is_code(b[0]),
            Self::decoded(b) == self,
    {
        let e = self.encoded();
        let s = b.subrange(0, HEADER_SIZE as int);
        lemma_enc16(self.num_keys);
        lemma_enc16(self._reserved);
        assert(forall|j: int| 0 <= j < HEADER_SIZE ==> b[j] == s[j]);
        assert(forall|j: int| 0 <= j < HEADER_SIZE ==> b[j] == e[j]);
        lemma_le_window(b, 1, enc16(self.num_keys), 0, 2);
        lemma_le_window(b, 3, enc16(self._reserved), 0, 2);
    }

    pub fn new(node_type: NodeType) -> (h: Self)
        ensures
            h.node_type == node_type,
            h.num_keys == 0,
            h._reserved == 0,
    {
        NodeHeader { node_type, num_keys: 0, _reserved: 0 }
    }

    pub fn as_bytes(&self) -> (b: Vec<u8>)
        ensures
            b@ == self.encoded(),
            b@.len() == HEADER_SIZE,
    {
        let mut b: Vec<u8> = Vec::with_capacity(HEADER_SIZE);
        let code: u8 = match self.node_type {
            NodeType::Leaf => 1,
            NodeType::Internal => 2,
        };
        b.push(code);
        push_u16(&mut b, self.num_keys);
        push_u16(&mut b, self._reserved);
        assert(b@ =~= self.encoded());
        b
    }

    pub fn from_bytes(bytes: &[u8]) -> (h: Self)
        requires
            bytes@.len() >= HEADER_SIZE,
            NodeType::is_code(bytes@[0]),
        ensures
            h == Self::decoded(bytes@),
    {
        let node_type = if bytes[0] == 1 {
            NodeType::Leaf
        } else {
            NodeType::Internal
        };
        NodeHeader { node_type, num_keys: read_u16(bytes, 1), _reserved: read_u16(bytes, 3) }
    }
}

/// What a record of the log says.
#[derive(Debug, Clone, Copy, PartialEq, Eq, Structural)]
pub enum WalRecordType {
    Insert,
    Delete,
    Commit,
    Abort,
}

impl WalRecordType {
    /// The byte that stands for the record type.
    pub open spec fn code(self) -> u8 {
        match self {
            WalRecordType::Insert => 1,
            WalRecordType::Delete => 2,
            WalRecordType::Commit => 3,
            WalRecordType::Abort => 4,
        }
    }

    /// The byte stands for a record type.
    pub open spec fn is_code(b: u8) -> bool {
        1 <= b <= 4
    }

    /// The record type that a byte stands for.
    pub open spec fn of_code(b: u8) -> Self {
        if b == 1 {
            WalRecordType::Insert
        } else if b == 2 {
            WalRecordType::Delete
        } else if b == 3 {
            WalRecordType::Commit
        } else {
            WalRecordType::Abort
        }
    }
}

/// The record that starts a record of the log.
#[derive(Debug, Clone, Copy)]
pub struct WalRecordHeader {
    pub checksum: u32,
    pub record_type: WalRecordType,
    pub key_len: u16,
    pub value_len: u32,
}

impl WalRecordHeader {
    /// The bytes of the record that its checksum covers.
    pub open spec fn tail(self) -> Seq<u8> {
        seq![self.record_type.code()] + enc16(self.key_len) + enc32(self.value_len)
    }

    /// The bytes of the record.
    pub open spec fn encoded(self) -> Seq<u8> {
        enc32(self.checksum) + self.tail()
    }

    /// The record that starts a run of bytes.
    pub open spec fn decoded(b: Seq<u8>) -> Self {
        WalRecordHeader {
            checksum: le32(b, 0),
            record_type: WalRecordType::of_code(b[4]),
            key_len: le16(b, 5),
            value_len: le32(b, 7),
        }
    }

    /// Every header takes the same space.
    pub proof fn lemma_encoded_len(self)
        ensures
            self.encoded().len() == WAL_HEADER_SIZE,
            self.tail().len() == WAL_HEADER_SIZE - 4,
    {
        lemma_enc32(self.checksum);
        lemma_enc16(self.key_len);
        lemma_enc32(self.value_len);
    }

    /// What was encoded at the start of a run of bytes is decoded from it.
    pub proof fn lemma_decoded(self, b: Seq<u8>)
        requires
            b.len() >= WAL_HEADER_SIZE,
            b.subrange(0, WAL_HEADER_SIZE as int) == self.encoded(),
        ensures
            self.encoded().len() == WAL_HEADER_SIZE,
            WalRecordType::is_code(b[4]),
            Self::decoded(b) == self,
            b.subrange(4, WAL_HEADER_SIZE as int) == self.tail(),
    {
        let e = self.encoded();
        let s = b.subrange(0, WAL_HEADER_SIZE as int);
        lemma_enc32(self.checksum);
        lemma_enc16(self.key_len);
        lemma_enc32(self.value_len);
        assert(forall|j: int| 0 <= j < WAL_HEADER_SIZE ==> b[j] == s[j]);
        assert(forall|j: int| 0 <= j < WAL_HEADER_SIZE ==> b[j] == e[j]);
        lemma_le_window(b, 0, enc32(self.checksum), 0, 4);
        lemma_le_window(b, 5, enc16(self.key_len), 0, 2);
        lemma_le_window(b, 7, enc32(self.value_len), 0, 4);
        assert(b.subrange(4, WAL_HEADER_SIZE as int) =~= self.tail());
    }

    pub fn as_bytes(&self) -> (b: Vec<u8>)
        ensures
            b@ == self.encoded(),
            b@.len() == WAL_HEADER_SIZE,
            b@.subrange(4, WAL_HEADER_SIZE as int) == self.tail(),
    {
        let mut b: Vec<u8> = Vec::with_capacity(WAL_HEADER_SIZE);
        push_u32(&mut b, self.checksum);
        let code: u8 = match self.record_type {
            WalRecordType::Insert => 1,
            WalRecordType::Delete => 2,
            WalRecordType::Commit => 3,
            WalRecordType::Abort => 4,
        };
        b.push(code);
        push_u16(&mut b, self.key_len);
        push_u32(&mut b, self.value_len);
        assert(b@ =~= self.encoded());
        assert(b@.subrange(4, WAL_HEADER_SIZE as int) =~= self.tail());
        b
    }

    pub fn from_bytes(bytes: &[u8]) -> (h: Self)
        requires
            bytes@.len() >= WAL_HEADER_SIZE,
            WalRecordType::is_code(bytes@[4]),
        ensures
            h == Self::decoded(bytes@),
    {
        let record_type = if bytes[4] == 1 {
            WalRecordType::Insert
        } else if bytes[4] == 2 {
            WalRecordType::Delete
        } else if bytes[4] == 3 {
            WalRecordType::Commit
        } else {
            WalRecordType::Abort
        };
        WalRecordHeader {
            checksum: read_u32(bytes, 0),
            record_type,
            key_len: read_u16(bytes, 5),
            value_len: read_u32(bytes, 7),
        }
    }
}

} // verus!
