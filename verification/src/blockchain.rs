use crate::bignum::{le_nat, lemma_le_nat_at_least_each_byte, BigNat};
use crate::crypto::{double_sha256, double_sha256_spec, sha256_digest};
use crate::utils::{
    bytes_to_u32_le, calculate_work, le_u32_value, lemma_le_u32_bytes_roundtrip,
    lemma_u32_le_roundtrip, target_value, u32_le_bytes, u32_to_le_bytes, work_value,
};
use vstd::arithmetic::power2::pow2;
use vstd::prelude::*;

verus! {

/// Why a header was refused.
#[derive(Debug, Clone, Copy, PartialEq, Eq)]
pub enum BlockError {
    /// A serialised header must be exactly 80 bytes; holds the length that was given.
    InvalidLength(usize),
    /// The header's parent is not in the chain.
    ParentNotFound,
    /// The header's hash is above the target that its `bits` encode.
    InvalidPoW,
}

/// An 80-byte Bitcoin block header.
#[derive(Debug, Clone, Copy, PartialEq, Eq)]
pub struct BlockHeader {
    pub version: u32,
    pub prev_block_hash: [u8; 32],
    pub merkle_root: [u8; 32],
    pub timestamp: u32,
    pub bits: u32,
    pub nonce: u32,
}

/// The 80 bytes of a header: every integer little-endian, the hashes as stored.
pub open spec fn header_bytes(h: BlockHeader) -> Seq<u8> {
    u32_le_bytes(h.version) + h.prev_block_hash@ + h.merkle_root@ + u32_le_bytes(h.timestamp)
        + u32_le_bytes(h.bits) + u32_le_bytes(h.nonce)
}

/// The hash of a header: double SHA-256 of its 80 bytes.
pub open spec fn block_hash(h: BlockHeader) -> Seq<u8> {
    double_sha256_spec(header_bytes(h))
}

/// Whether a hash, read as a little-endian number, is at most the target that `bits` encodes.
pub open spec fn meets_target(hash: Seq<u8>, bits: u32) -> bool {
    le_nat(hash) <= target_value(bits)
}

/// The hash that marks a header without a parent.
pub open spec fn zero_hash() -> Seq<u8> {
    Seq::new(32, |_i: int| 0u8)
}

/// Copies the 32 bytes of `bytes` that start at `start`.
fn read_hash(bytes: &[u8], start: usize) -> (out: [u8; 32])
    requires
        start + 32 <= bytes@.len(),
    ensures
        out@ == bytes@.subrange(start as int, start + 32),
{
    let mut out = [0u8; 32];
    for i in 0..32usize
        invariant
            start + 32 <= bytes.len(),
            forall|j: int| 0 <= j < i ==> out@[j] == bytes@[start + j],
    {
        out[i] = bytes[start + i];
    }
    assert(out@ =~= bytes@.subrange(start as int, start + 32));
    out
}

/// Whether two hashes are equal.
fn hashes_equal(a: &[u8; 32], b: &[u8; 32]) -> (eq: bool)
    ensures
        eq == (a@ == b@),
{
    for i in 0..32usize
        invariant
            forall|j: int| 0 <= j < i ==> a@[j] == b@[j],
    {
        if a[i] != b[i] {
            return false;
        }
    }
    assert(a@ =~= b@);
    true
}

/// Whether a hash is all zeros.
fn is_zero_hash(h: &[u8; 32]) -> (zero: bool)
    ensures
        zero == (h@ == zero_hash()),
{
    for i in 0..32usize
        invariant
            forall|j: int| 0 <= j < i ==> h@[j] == 0u8,
    {
        if h[i] != 0 {
            assert(h@[i as int] != zero_hash()[i as int]);
            return false;
        }
    }
    assert(h@ =~= zero_hash());
    true
}

/// Appends the four little-endian bytes of `v`.
fn push_u32_le(buffer: &mut Vec<u8>, v: u32)
    ensures
        final(buffer)@ == old(buffer)@ + u32_le_bytes(v),
{
    let bytes = u32_to_le_bytes(v);
    buffer.extend_from_slice(bytes.as_slice());
    assert(final(buffer)@ =~= old(buffer)@ + u32_le_bytes(v));
}

impl BlockHeader {
    /// Deserializes a block header from 80 bytes (Little-Endian format).
    pub fn from_bytes(bytes: &[u8]) -> (r: Result<BlockHeader, BlockError>)
        ensures
            bytes@.len() != 80 ==> r == Err::<BlockHeader, BlockError>(
                BlockError::InvalidLength(bytes@.len() as usize),
            ),
            bytes@.len() == 80 ==> (r matches Ok(h) && header_bytes(h) == bytes@),
            bytes@.len() == 80 ==> (r matches Ok(h) && {
                &&& h.version == bytes@[0] + bytes@[1] * 256 + bytes@[2] * 65536 + bytes@[3]
                    * 16777216
                &&& h.prev_block_hash@ == bytes@.subrange(4, 36)
                &&& h.merkle_root@ == bytes@.subrange(36, 68)
                &&& h.timestamp == bytes@[68] + bytes@[69] * 256 + bytes@[70] * 65536
                    + bytes@[71] * 16777216
                &&& h.bits == bytes@[72] + bytes@[73] * 256 + bytes@[74] * 65536 + bytes@[75]
                    * 16777216
                &&& h.nonce == bytes@[76] + bytes@[77] * 256 + bytes@[78] * 65536 + bytes@[79]
                    * 16777216
            }),
    {
        if bytes.len() != 80 {
            return Err(BlockError::InvalidLength(bytes.len()));
        }
        let version = bytes_to_u32_le(&bytes[0..4]);
        let prev_block_hash = read_hash(bytes, 4);
        let merkle_root = read_hash(bytes, 36);
        let timestamp = bytes_to_u32_le(&bytes[68..72]);
        let bits = bytes_to_u32_le(&bytes[72..76]);
        let nonce = bytes_to_u32_le(&bytes[76..80]);
        let h = BlockHeader { version, prev_block_hash, merkle_root, timestamp, bits, nonce };
        proof {
            let s = bytes@;
            lemma_le_u32_bytes_roundtrip(s.subrange(0, 4));
            lemma_le_u32_bytes_roundtrip(s.subrange(68, 72));
            lemma_le_u32_bytes_roundtrip(s.subrange(72, 76));
            lemma_le_u32_bytes_roundtrip(s.subrange(76, 80));
            assert(le_u32_value(s.subrange(0, 4)) == version);
            assert(le_u32_value(s.subrange(68, 72)) == timestamp);
            assert(le_u32_value(s.subrange(72, 76)) == bits);
            assert(le_u32_value(s.subrange(76, 80)) == nonce);
            assert(header_bytes(h) =~= s);
        }
        Ok(h)
    }

    /// Serializes the header into its 80 bytes.
    pub fn serialize(&self) -> (bytes: Vec<u8>)
        ensures
            bytes@ == header_bytes(*self),
            bytes@.len() == 80,
            self.version == bytes@[0] + bytes@[1] * 256 + bytes@[2] * 65536 + bytes@[3]
                * 16777216,
            bytes@.subrange(4, 36) == self.prev_block_hash@,
            bytes@.subrange(36, 68) == self.merkle_root@,
            self.timestamp == bytes@[68] + bytes@[69] * 256 + bytes@[70] * 65536 + bytes@[71]
                * 16777216,
            self.bits == bytes@[72] + bytes@[73] * 256 + bytes@[74] * 65536 + bytes@[75]
                * 16777216,
            self.nonce == bytes@[76] + bytes@[77] * 256 + bytes@[78] * 65536 + bytes@[79]
                * 16777216,
    {
        proof {
            lemma_header_bytes_layout(*self);
        }
        let mut buffer: Vec<u8> = Vec::with_capacity(80);
        push_u32_le(&mut buffer, self.version);
        buffer.extend_from_slice(self.prev_block_hash.as_slice());
        buffer.extend_from_slice(self.merkle_root.as_slice());
        push_u32_le(&mut buffer, self.timestamp);
        push_u32_le(&mut buffer, self.bits);
        push_u32_le(&mut buffer, self.nonce);
        assert(buffer@ =~= header_bytes(*self));
        buffer
    }

    /// Computes the double-SHA256 hash of the header.
    pub fn hash(&self) -> (h: [u8; 32])
        ensures
            h@ == block_hash(*self),
            h@ == sha256_digest(sha256_digest(header_bytes(*self))),
    {
        let bytes = self.serialize();
        double_sha256(bytes.as_slice())
    }

    /// Validates the header's proof of work: its hash is at most its target.
    pub fn validate_pow(&self) -> (valid: bool)
        ensures
            valid == meets_target(block_hash(*self), self.bits),
            valid == (le_nat(block_hash(*self)) <= target_value(self.bits)),
    {
        let hash_bytes = self.hash();
        hash_meets_target(&hash_bytes, self.bits)
    }
}

/// Whether `hash`, read as a little-endian 256-bit number, is at most the target of `bits`.
pub fn hash_meets_target(hash: &[u8; 32], bits: u32) -> (valid: bool)
    ensures
        valid == meets_target(hash@, bits),
        valid == (le_nat(hash@) <= target_value(bits)),
{
    let target = crate::utils::bits_to_target(bits);
    let hash_num = BigNat::from_le_bytes(hash.as_slice());
    hash_num.le(&target)
}

/// Header bytes determine the header.
proof fn lemma_header_bytes_injective(h1: BlockHeader, h2: BlockHeader)
    requires
        header_bytes(h1) == header_bytes(h2),
    ensures
        h1 == h2,
{
    let s = header_bytes(h1);
    lemma_u32_le_roundtrip(h1.version);
    lemma_u32_le_roundtrip(h2.version);
    lemma_u32_le_roundtrip(h1.timestamp);
    lemma_u32_le_roundtrip(h2.timestamp);
    lemma_u32_le_roundtrip(h1.bits);
    lemma_u32_le_roundtrip(h2.bits);
    lemma_u32_le_roundtrip(h1.nonce);
    lemma_u32_le_roundtrip(h2.nonce);
    assert(s.subrange(0, 4) =~= u32_le_bytes(h1.version));
    assert(header_bytes(h2).subrange(0, 4) =~= u32_le_bytes(h2.version));
    assert(s.subrange(4, 36) =~= h1.prev_block_hash@);
    assert(header_bytes(h2).subrange(4, 36) =~= h2.prev_block_hash@);
    assert(s.subrange(36, 68) =~= h1.merkle_root@);
    assert(header_bytes(h2).subrange(36, 68) =~= h2.merkle_root@);
    assert(s.subrange(68, 72) =~= u32_le_bytes(h1.timestamp));
    assert(header_bytes(h2).subrange(68, 72) =~= u32_le_bytes(h2.timestamp));
    assert(s.subrange(72, 76) =~= u32_le_bytes(h1.bits));
    assert(header_bytes(h2).subrange(72, 76) =~= u32_le_bytes(h2.bits));
    assert(s.subrange(76, 80) =~= u32_le_bytes(h1.nonce));
    assert(header_bytes(h2).subrange(76, 80) =~= u32_le_bytes(h2.nonce));
    assert(h1.prev_block_hash =~= h2.prev_block_hash);
    assert(h1.merkle_root =~= h2.merkle_root);
}

/// A stored header with the work of its chain and its height.
#[derive(Debug, Clone)]
pub struct ChainEntry {
    pub header: BlockHeader,
    pub cumulative_work: BigNat,
    pub height: u64,
}

/// What a chain entry stands for.
pub struct EntryModel {
    pub header: BlockHeader,
    pub cumulative_work: nat,
    pub height: nat,
}

impl View for ChainEntry {
    type V = EntryModel;

    open spec fn view(&self) -> EntryModel {
        EntryModel {
            header: self.header,
            cumulative_work: self.cumulative_work@,
            height: self.height as nat,
        }
    }
}

/// What a header chain stands for: its entries keyed by header hash, the hashes in the
/// order in which their headers were stored, and its best tip.
pub struct ChainModel {
    pub entries: Map<Seq<u8>, EntryModel>,
    pub order: Seq<Seq<u8>>,
    pub best_tip: Option<Seq<u8>>,
}

impl ChainModel {
    /// The entry that storing `header` makes: a header whose parent hash is all zeros
    /// starts a chain with its own work at height 0; otherwise the parent must be stored,
    /// and the entry adds its own work to the parent's and stands one above it.
    pub open spec fn entry_for(self, header: BlockHeader) -> Option<EntryModel> {
        if header.prev_block_hash@ == zero_hash() {
            Some(EntryModel { header, cumulative_work: work_value(header.bits), height: 0 })
        } else if self.entries.contains_key(header.prev_block_hash@) {
            let parent = self.entries[header.prev_block_hash@];
            Some(
                EntryModel {
                    header,
                    cumulative_work: parent.cumulative_work + work_value(header.bits),
                    height: parent.height + 1,
                },
            )
        } else {
            None
        }
    }

    /// The best tip once `entry` is stored under `hash`: it moves to the new entry only
    /// when there was none or the new entry has strictly more cumulative work.
    pub open spec fn tip_after(self, hash: Seq<u8>, entry: EntryModel) -> Option<Seq<u8>> {
        match self.best_tip {
            Some(tip) => if entry.cumulative_work > self.entries[tip].cumulative_work {
                Some(hash)
            } else {
                Some(tip)
            },
            None => Some(hash),
        }
    }

    /// Every entry is stored under its header's hash, its header meets its own target, and
    /// it is the entry that its header makes against the chain. The insertion order lists
    /// each stored hash once. The best tip is stored, no entry has more work than it, and
    /// every entry stored before it has strictly less work (among equals the first stored
    /// is the tip). There is no tip only in an empty chain.
    #[verifier::opaque]
    pub open spec fn consistent(self) -> bool {
        &&& forall|k: Seq<u8>|
            self.entries.contains_key(k) ==> k == block_hash(#[trigger] self.entries[k].header)
        &&& forall|k: Seq<u8>|
            self.entries.contains_key(k) ==> meets_target(
                block_hash(#[trigger] self.entries[k].header),
                self.entries[k].header.bits,
            )
        &&& forall|k: Seq<u8>|
            self.entries.contains_key(k) ==> self.entry_for(#[trigger] self.entries[k].header)
                == Some(self.entries[k])
        &&& self.order.no_duplicates()
        &&& forall|k: Seq<u8>| #[trigger] self.entries.contains_key(k) <==> self.order.contains(k)
        &&& match self.best_tip {
            Some(tip) => {
                &&& self.entries.contains_key(tip)
                &&& forall|k: Seq<u8>| #[trigger]
                    self.entries.contains_key(k) ==> self.entries[k].cumulative_work
                        <= self.entries[tip].cumulative_work
                &&& forall|i: int, j: int|
                    0 <= i < j < self.order.len() && self.order[j] == tip ==> #[trigger] self.entries[
                        self.order[i]
                    ].cumulative_work < self.entries[#[trigger] self.order[j]].cumulative_work
            },
            None => forall|k: Seq<u8>| !self.entries.contains_key(k),
        }
    }
}

/// A header stored with its hash.
struct StoredHeader {
    hash: [u8; 32],
    entry: ChainEntry,
}

/// The map that a list of stored headers stands for.
spec fn entries_of(records: Seq<StoredHeader>) -> Map<Seq<u8>, EntryModel>
    decreases records.len(),
{
    if records.len() == 0 {
        Map::empty()
    } else {
        entries_of(records.drop_last()).insert(records.last().hash@, records.last().entry@)
    }
}

/// No hash is stored twice.
spec fn hashes_distinct(records: Seq<StoredHeader>) -> bool {
    forall|i: int, j: int|
        0 <= i < j < records.len() ==> #[trigger] records[i].hash@ != #[trigger] records[j].hash@
}

proof fn lemma_entries_of_keys(records: Seq<StoredHeader>, k: Seq<u8>)
    ensures
        entries_of(records).contains_key(k) <==> exists|i: int|
            0 <= i < records.len() && #[trigger] records[i].hash@ == k,
    decreases records.len(),
{
    if records.len() > 0 {
        let prefix = records.drop_last();
        lemma_entries_of_keys(prefix, k);
        if entries_of(prefix).contains_key(k) {
            let i = choose|i: int| 0 <= i < prefix.len() && #[trigger] prefix[i].hash@ == k;
            assert(records[i].hash@ == k);
        }
        if exists|i: int| 0 <= i < records.len() && #[trigger] records[i].hash@ == k {
            let i = choose|i: int| 0 <= i < records.len() && #[trigger] records[i].hash@ == k;
            if i < records.len() - 1 {
                assert(prefix[i].hash@ == k);
            }
        }
    }
}

proof fn lemma_entries_of_lookup(records: Seq<StoredHeader>, i: int)
    requires
        hashes_distinct(records),
        0 <= i < records.len(),
    ensures
        entries_of(records).contains_key(records[i].hash@),
        entries_of(records)[records[i].hash@] == records[i].entry@,
    decreases records.len(),
{
    if i < records.len() - 1 {
        let prefix = records.drop_last();
        assert(prefix[i] == records[i]);
        assert(hashes_distinct(prefix));
        lemma_entries_of_lookup(prefix, i);
        assert(records[i].hash@ != records[records.len() - 1].hash@);
    }
}

/// Storing an entry that the chain makes for a new header keeps the chain consistent.
proof fn lemma_chain_step(before: ChainModel, after: ChainModel, hash: Seq<u8>, e: EntryModel)
    requires
        before.consistent(),
        !before.entries.contains_key(hash),
        hash == block_hash(e.header),
        meets_target(hash, e.header.bits),
        before.entry_for(e.header) == Some(e),
        after.entries == before.entries.insert(hash, e),
        after.order == before.order.push(hash),
        after.best_tip == before.tip_after(hash, e),
    ensures
        after.consistent(),
{
    reveal(ChainModel::consistent);
    assert forall|k: Seq<u8>| #[trigger] after.entries.contains_key(k) implies after.entry_for(
        after.entries[k].header,
    ) == Some(after.entries[k]) by {
        let hd = after.entries[k].header;
        if hd.prev_block_hash@ != zero_hash() {
            if k == hash {
                assert(before.entries.contains_key(hd.prev_block_hash@));
            } else {
                assert(before.entry_for(before.entries[k].header) == Some(before.entries[k]));
                assert(before.entries.contains_key(hd.prev_block_hash@));
            }
        }
    }
    assert(!before.order.contains(hash));
    let n = before.order.len() as int;
    assert forall|k: Seq<u8>| #[trigger] after.entries.contains_key(k) <==> after.order.contains(
        k,
    ) by {
        if after.order.contains(k) && k != hash {
            let i = choose|i: int| 0 <= i < after.order.len() && after.order[i] == k;
            assert(before.order[i] == k);
        }
        if before.order.contains(k) {
            let i = choose|i: int| 0 <= i < before.order.len() && before.order[i] == k;
            assert(after.order[i] == k);
        }
        assert(after.order[n] == hash);
    }
    assert forall|i: int, j: int| 0 <= i < j < after.order.len() implies after.order[i]
        != after.order[j] by {
        if j == n {
            assert(before.order.contains(before.order[i]));
        } else {
            assert(before.order[i] != before.order[j]);
        }
    }
    assert forall|i: int| 0 <= i < n implies #[trigger] after.order[i] != hash
        && before.entries.contains_key(after.order[i]) by {
        assert(after.order[i] == before.order[i]);
        assert(before.order.contains(before.order[i]));
    }
    match before.best_tip {
        Some(tip) => {
            assert(before.entries.contains_key(tip));
            if e.cumulative_work > before.entries[tip].cumulative_work {
                assert forall|i: int, j: int|
                    0 <= i < j < after.order.len() && after.order[j] == hash implies #[trigger] after.entries[
                    after.order[i]
                ].cumulative_work < after.entries[#[trigger] after.order[j]].cumulative_work by {
                    assert(before.entries.contains_key(after.order[i]));
                }
            } else {
                assert forall|i: int, j: int|
                    0 <= i < j < after.order.len() && after.order[j] == tip implies #[trigger] after.entries[
                    after.order[i]
                ].cumulative_work < after.entries[#[trigger] after.order[j]].cumulative_work by {
                    assert(j < n);
                    assert(before.order[j] == tip);
                    assert(before.order[i] == after.order[i]);
                }
            }
        },
        None => {
            assert forall|k: Seq<u8>| #[trigger] after.entries.contains_key(k) implies after.entries[
                k
            ].cumulative_work <= e.cumulative_work by {
                assert(!before.entries.contains_key(k));
            }
            assert(n == 0) by {
                if n > 0 {
                    assert(before.order.contains(before.order[0]));
                    assert(before.entries.contains_key(before.order[0]));
                }
            }
        },
    }
}

/// A chain of headers that follows the tip with the most cumulative work.
pub struct HeaderChain {
    /// The stored headers in the order in which they were added, each with its hash; no
    /// hash occurs twice. They are kept in a `Vec` searched by hash, not in a `HashMap`
    /// keyed by hash: vstd specifies `HashMap` only for keys with a key model (integers,
    /// `bool` and boxes of them), and a `[u8; 32]` key has none, so none of the map's
    /// contracts would hold for it.
    records: Vec<StoredHeader>,
    /// Index in `records` of the best tip.
    best_tip: Option<usize>,
}

impl View for HeaderChain {
    type V = ChainModel;

    closed spec fn view(&self) -> ChainModel {
        ChainModel {
            entries: entries_of(self.records@),
            order: self.records@.map_values(|r: StoredHeader| r.hash@),
            best_tip: match self.best_tip {
                Some(i) => Some(self.records@[i as int].hash@),
                None => None,
            },
        }
    }
}

impl HeaderChain {
    /// The chain's own invariant, which every chain keeps: no hash twice, heights below
    /// the number of entries, the tip's index in range, and a consistent model.
    #[verifier::type_invariant]
    spec fn well_formed(self) -> bool {
        &&& hashes_distinct(self.records@)
        &&& forall|i: int|
            0 <= i < self.records@.len() ==> #[trigger] self.records@[i].entry.height
                < self.records@.len()
        &&& self.best_tip matches Some(i) ==> i < self.records@.len()
        &&& self@.consistent()
    }

    /// An empty chain.
    pub fn new() -> (chain: HeaderChain)
        ensures
            chain@.consistent(),
            chain@.entries == Map::<Seq<u8>, EntryModel>::empty(),
            chain@.best_tip is None,
            chain@.order.len() == 0,
    {
        let records: Vec<StoredHeader> = Vec::new();
        proof {
            reveal(ChainModel::consistent);
            assert(entries_of(records@) =~= Map::<Seq<u8>, EntryModel>::empty());
            assert(records@.map_values(|r: StoredHeader| r.hash@) =~= Seq::<Seq<u8>>::empty());
        }
        HeaderChain { records, best_tip: None }
    }

    /// The index of the record stored under `hash`.
    fn find(&self, hash: &[u8; 32]) -> (found: Option<usize>)
        requires
            hashes_distinct(self.records@),
        ensures
            match found {
                Some(i) => {
                    &&& i < self.records@.len()
                    &&& self.records@[i as int].hash@ == hash@
                    &&& self@.entries.contains_key(hash@)
                    &&& self@.entries[hash@] == self.records@[i as int].entry@
                },
                None => !self@.entries.contains_key(hash@),
            },
    {
        let n = self.records.len();
        for i in 0..n
            invariant
                n == self.records@.len(),
                hashes_distinct(self.records@),
                forall|j: int| 0 <= j < i ==> #[trigger] self.records@[j].hash@ != hash@,
        {
            if hashes_equal(&self.records[i].hash, hash) {
                proof {
                    lemma_entries_of_lookup(self.records@, i as int);
                }
                return Some(i);
            }
        }
        proof {
            lemma_entries_of_keys(self.records@, hash@);
        }
        None
    }

    /// Returns the hash of the stored header with the most cumulative work, first seen
    /// among equals.
    pub fn get_best_tip(&self) -> (tip: Option<[u8; 32]>)
        ensures
            self@.consistent(),
            match tip {
                Some(t) => self@.best_tip == Some(t@),
                None => self@.best_tip is None,
            },
    {
        proof {
            use_type_invariant(self);
        }
        match self.best_tip {
            Some(i) => Some(self.records[i].hash),
            None => None,
        }
    }

    /// The entry that `header` makes against this chain, or `ParentNotFound`.
    fn make_entry(&self, header: BlockHeader) -> (r: Result<ChainEntry, BlockError>)
        ensures
            match self@.entry_for(header) {
                Some(e) => r matches Ok(entry) && entry@ == e && entry.height
                    <= self.records@.len(),
                None => r == Err::<ChainEntry, BlockError>(BlockError::ParentNotFound),
            },
    {
        proof {
            use_type_invariant(self);
        }
        let work = calculate_work(header.bits);
        if is_zero_hash(&header.prev_block_hash) {
            Ok(ChainEntry { header, cumulative_work: work, height: 0 })
        } else {
            match self.find(&header.prev_block_hash) {
                Some(p) => {
                    let parent = &self.records[p].entry;
                    let n = self.records.len();
                    assert(parent.height < n);
                    assert(usize::MAX <= u64::MAX);
                    Ok(
                        ChainEntry {
                            header,
                            cumulative_work: parent.cumulative_work.add(&work),
                            height: parent.height + 1,
                        },
                    )
                },
                None => Err(BlockError::ParentNotFound),
            }
        }
    }

    /// Stores the entry that a new header makes under its hash and moves the best tip
    /// to it when it has strictly more work.
    fn store(&mut self, hash: [u8; 32], entry: ChainEntry)
        requires
            !old(self)@.entries.contains_key(hash@),
            hash@ == block_hash(entry.header),
            meets_target(hash@, entry.header.bits),
            old(self)@.entry_for(entry.header) == Some(entry@),
            entry.height <= old(self).records@.len(),
        ensures
            final(self)@.consistent(),
            final(self)@.entries == old(self)@.entries.insert(hash@, entry@),
            final(self)@.order == old(self)@.order.push(hash@),
            final(self)@.best_tip == old(self)@.tip_after(hash@, entry@),
    {
        proof {
            use_type_invariant(&*self);
        }
        let ghost old_model = self@;
        let ghost old_records = self.records@;
        let ghost e = entry@;
        let new_is_best = match self.best_tip {
            Some(t) => entry.cumulative_work.gt(&self.records[t].entry.cumulative_work),
            None => true,
        };
        proof {
            lemma_entries_of_keys(old_records, hash@);
            if let Some(t) = self.best_tip {
                lemma_entries_of_lookup(old_records, t as int);
            }
        }
        // Take the chain out, extend it, and put it back whole, so that the invariant
        // holds at every step.
        let mut taken = HeaderChain::new();
        std::mem::swap(&mut taken, self);
        let HeaderChain { mut records, best_tip } = taken;
        records.push(StoredHeader { hash, entry });
        let best_tip = if new_is_best {
            Some(records.len() - 1)
        } else {
            best_tip
        };
        proof {
            assert(records@.drop_last() =~= old_records);
            let after = ChainModel {
                entries: entries_of(records@),
                order: records@.map_values(|r: StoredHeader| r.hash@),
                best_tip: match best_tip {
                    Some(i) => Some(records@[i as int].hash@),
                    None => None,
                },
            };
            assert(after.entries == old_model.entries.insert(hash@, e));
            assert(after.order =~= old_model.order.push(hash@));
            assert(hashes_distinct(records@));
            lemma_chain_step(old_model, after, hash@, e);
        }
        *self = HeaderChain { records, best_tip };
    }

    /// Adds a header to the chain.
    ///
    /// A header already stored is accepted and changes nothing. Otherwise its proof of
    /// work must hold (else `InvalidPoW`) and its parent must be stored unless its parent
    /// hash is all zeros (else `ParentNotFound`); it is then stored with the work of its
    /// chain, and becomes the best tip if it has strictly more work than the current one.
    /// A refused header changes nothing.
    pub fn add_header(&mut self, header: BlockHeader) -> (r: Result<(), BlockError>)
        ensures
            final(self)@.consistent(),
            old(self)@.entries.contains_key(block_hash(header)) ==> r == Ok::<(), BlockError>(())
                && final(self)@ == old(self)@,
            !old(self)@.entries.contains_key(block_hash(header)) && !meets_target(
                block_hash(header),
                header.bits,
            ) ==> r == Err::<(), BlockError>(BlockError::InvalidPoW) && final(self)@ == old(
                self,
            )@,
            !old(self)@.entries.contains_key(block_hash(header)) && meets_target(
                block_hash(header),
                header.bits,
            ) && old(self)@.entry_for(header) is None ==> r == Err::<(), BlockError>(
                BlockError::ParentNotFound,
            ) && final(self)@ == old(self)@,
            old(self)@.entry_for(header) matches Some(e) ==> (!old(self)@.entries.contains_key(
                block_hash(header),
            ) && meets_target(block_hash(header), header.bits) ==> r == Ok::<(), BlockError>(())
                && final(self)@.entries == old(self)@.entries.insert(block_hash(header), e)
                && final(self)@.order == old(self)@.order.push(block_hash(header))
                && final(self)@.best_tip == old(self)@.tip_after(block_hash(header), e)),
    {
        proof {
            use_type_invariant(&*self);
        }
        let hash = header.hash();
        if self.find(&hash).is_some() {
            return Ok(());
        }
        if !header.validate_pow() {
            return Err(BlockError::InvalidPoW);
        }
        let entry = self.make_entry(header)?;
        self.store(hash, entry);
        Ok(())
    }
}

/// The 80 bytes of a header are exactly what `from_bytes` accepts, and they determine
/// the header: serialising and parsing again gives the same header back.
pub proof fn lemma_header_roundtrip(h: BlockHeader, parsed: BlockHeader)
    requires
        header_bytes(parsed) == header_bytes(h),
    ensures
        header_bytes(h).len() == 80,
        parsed == h,
{
    lemma_header_bytes_injective(parsed, h);
}

/// In a consistent chain every stored header has no more work than the best tip, and
/// a chain with a stored header has a best tip.
pub proof fn lemma_best_tip_has_most_work(chain: ChainModel, k: Seq<u8>)
    requires
        chain.consistent(),
        chain.entries.contains_key(k),
    ensures
        chain.best_tip matches Some(tip) && chain.entries.contains_key(tip)
            && chain.entries[k].cumulative_work <= chain.entries[tip].cumulative_work,
{
    reveal(ChainModel::consistent);
}

/// In a consistent chain every entry is stored under its header's hash. An entry whose
/// parent hash is all zeros has its own work at height 0; any other entry's parent is
/// stored, and the entry has the parent's work plus its own, at one above the parent.
pub proof fn lemma_entries_link_to_parents(chain: ChainModel, k: Seq<u8>)
    requires
        chain.consistent(),
        chain.entries.contains_key(k),
    ensures
        k == block_hash(chain.entries[k].header),
        ({
            let e = chain.entries[k];
            let prev = e.header.prev_block_hash@;
            if prev == zero_hash() {
                e.cumulative_work == work_value(e.header.bits) && e.height == 0
            } else {
                &&& chain.entries.contains_key(prev)
                &&& e.cumulative_work == chain.entries[prev].cumulative_work + work_value(
                    e.header.bits,
                )
                &&& e.cumulative_work >= chain.entries[prev].cumulative_work
                &&& e.height == chain.entries[prev].height + 1
            }
        }),
{
    reveal(ChainModel::consistent);
    let e = chain.entries[k];
    assert(chain.entry_for(e.header) == Some(e));
}

/// Among stored entries of equal work the best tip is the one stored first: every entry
/// stored before the tip has strictly less cumulative work than the tip.
pub proof fn lemma_best_tip_is_first_with_most_work(chain: ChainModel, i: int, j: int)
    requires
        chain.consistent(),
        0 <= i < j < chain.order.len(),
        chain.best_tip == Some(chain.order[j]),
    ensures
        chain.entries.contains_key(chain.order[i]),
        chain.entries[chain.order[i]].cumulative_work < chain.entries[chain.order[j]].cumulative_work,
{
    reveal(ChainModel::consistent);
    assert(chain.order.contains(chain.order[i]));
    assert(chain.entries.contains_key(chain.order[i]));
}

/// Every stored header meets the target that its own `bits` encode.
pub proof fn lemma_stored_headers_meet_their_targets(chain: ChainModel, k: Seq<u8>)
    requires
        chain.consistent(),
        chain.entries.contains_key(k),
    ensures
        meets_target(block_hash(chain.entries[k].header), chain.entries[k].header.bits),
{
    reveal(ChainModel::consistent);
    let e = chain.entries[k];
    assert(meets_target(block_hash(e.header), e.header.bits));
}

/// Where each field lies in the 80 bytes: the version, timestamp, bits and nonce as
/// little-endian `u32`s at bytes 0, 68, 72 and 76, and the two hashes byte for byte, in
/// the order they are stored, at bytes 4..36 and 36..68.
pub proof fn lemma_header_bytes_layout(h: BlockHeader)
    ensures
        header_bytes(h).len() == 80,
        h.version == header_bytes(h)[0] + header_bytes(h)[1] * 256 + header_bytes(h)[2] * 65536
            + header_bytes(h)[3] * 16777216,
        header_bytes(h).subrange(4, 36) == h.prev_block_hash@,
        header_bytes(h).subrange(36, 68) == h.merkle_root@,
        h.timestamp == header_bytes(h)[68] + header_bytes(h)[69] * 256 + header_bytes(h)[70]
            * 65536 + header_bytes(h)[71] * 16777216,
        h.bits == header_bytes(h)[72] + header_bytes(h)[73] * 256 + header_bytes(h)[74] * 65536
            + header_bytes(h)[75] * 16777216,
        h.nonce == header_bytes(h)[76] + header_bytes(h)[77] * 256 + header_bytes(h)[78] * 65536
            + header_bytes(h)[79] * 16777216,
{
    let s = header_bytes(h);
    lemma_u32_le_roundtrip(h.version);
    lemma_u32_le_roundtrip(h.timestamp);
    lemma_u32_le_roundtrip(h.bits);
    lemma_u32_le_roundtrip(h.nonce);
    assert(s.subrange(0, 4) =~= u32_le_bytes(h.version));
    assert(s.subrange(4, 36) =~= h.prev_block_hash@);
    assert(s.subrange(36, 68) =~= h.merkle_root@);
    assert(s.subrange(68, 72) =~= u32_le_bytes(h.timestamp));
    assert(s.subrange(72, 76) =~= u32_le_bytes(h.bits));
    assert(s.subrange(76, 80) =~= u32_le_bytes(h.nonce));
}

/// A header's hash is SHA-256 applied twice to exactly its 80 serialised bytes.
pub proof fn lemma_block_hash_is_double_digest(h: BlockHeader)
    ensures
        block_hash(h) == sha256_digest(sha256_digest(header_bytes(h))),
{
}

/// The whole hash is read: a hash with a nonzero byte at a place worth more than the
/// target (`2^(8 * i) > target`) never meets it.
pub proof fn lemma_high_byte_fails_target(hash: Seq<u8>, bits: u32, i: int)
    requires
        0 <= i < hash.len(),
        hash[i] > 0,
        target_value(bits) < pow2((8 * i) as nat),
    ensures
        !meets_target(hash, bits),
{
    lemma_le_nat_at_least_each_byte(hash, i);
    let p = pow2((8 * i) as nat);
    assert(hash[i] * p >= p) by (nonlinear_arith)
        requires
            hash[i] >= 1,
            p >= 0,
    ;
}

} // verus!
