//! The SST layout: the per-block index records (`BlockMeta`), the in-memory
//! file abstraction, and the immutable sorted-string table.
//!
//! An SST image is
//!
//! ```text
//! block_1 || ... || block_M || meta_1 || ... || meta_M || u64 meta_checksum || u32 meta_offset
//! ```
//!
//! where `meta_i = u32 offset_i | u16 first_key_len_i | first_key_i`,
//! `offset_i` is the byte position of block `i` from the file start (so
//! `offset_1 = 0`), and `meta_offset` is the byte length of the block
//! sequence. The meta checksum is the fixed-seed fingerprint of the encoded
//! meta records.

pub mod builder;
pub mod iterator;

pub use builder::SsTableBuilder;
pub use iterator::SsTableIterator;

use vstd::prelude::*;

use crate::block::{block_entries, spec_block_decode, wf_block, Block, BlockView};
use crate::bytes_util::{append_bytes, copy_range};
use crate::checksum::{fingerprint64, spec_fingerprint64};
use crate::endian::{
    lemma_u16_be_round_trip, lemma_u32_be_round_trip, push_u16_be, push_u32_be, push_u64_be,
    read_u16_be, read_u32_be, read_u64_be, spec_u16_from_be_bytes, spec_u16_to_be_bytes,
    spec_u32_from_be_bytes, spec_u32_to_be_bytes, spec_u64_from_be_bytes, spec_u64_to_be_bytes,
};
use crate::error::LsmError;
use crate::keys::{
    compare_keys, entries_keys_nonempty, entries_sorted, lemma_lex_trichotomy,
    lemma_lex_lt_le_transitive, lemma_lex_lt_transitive, lex_le, lex_lt, KeyOrdering,
};
use std::sync::Arc;

verus! {

/// The mathematical content of one index record.
#[verifier::ext_equal]
pub struct BlockMetaView {
    pub offset: int,
    pub first_key: Seq<u8>,
}

/// One index record per data block: the block's byte position in the SST and
/// its first key.
pub struct BlockMeta {
    /// Offset of this data block.
    pub offset: usize,
    /// The first key of the data block, used to locate the block for a key.
    pub first_key: Vec<u8>,
}

impl View for BlockMeta {
    type V = BlockMetaView;

    open spec fn view(&self) -> BlockMetaView {
        BlockMetaView { offset: self.offset as int, first_key: self.first_key@ }
    }
}

/// The views of a sequence of records.
pub open spec fn views_of_metas(ms: Seq<BlockMeta>) -> Seq<BlockMetaView> {
    ms.map_values(|m: BlockMeta| m@)
}

/// A record can be encoded: its offset fits 32 bits and its key length 16.
pub open spec fn meta_encodable(m: BlockMetaView) -> bool {
    &&& 0 <= m.offset <= 0xffff_ffff
    &&& m.first_key.len() <= 0xffff
}

/// The encoded bytes of one record.
pub open spec fn spec_meta_record_bytes(m: BlockMetaView) -> Seq<u8> {
    spec_u32_to_be_bytes(m.offset as u32) + spec_u16_to_be_bytes(m.first_key.len() as u16)
        + m.first_key
}

/// The encoded bytes of a record sequence.
pub open spec fn spec_metas_to_bytes(ms: Seq<BlockMetaView>) -> Seq<u8>
    decreases ms.len(),
{
    if ms.len() == 0 {
        Seq::empty()
    } else {
        spec_meta_record_bytes(ms[0]) + spec_metas_to_bytes(ms.drop_first())
    }
}

proof fn lemma_metas_bytes_push(ms: Seq<BlockMetaView>, m: BlockMetaView)
    ensures
        spec_metas_to_bytes(ms.push(m)) == spec_metas_to_bytes(ms) + spec_meta_record_bytes(m),
    decreases ms.len(),
{
    if ms.len() == 0 {
        assert(ms.push(m).drop_first() =~= Seq::<BlockMetaView>::empty());
        assert(ms.push(m)[0] == m);
        assert(spec_metas_to_bytes(Seq::<BlockMetaView>::empty()) =~= Seq::<u8>::empty());
        assert(spec_metas_to_bytes(ms.push(m)) == spec_meta_record_bytes(m)
            + spec_metas_to_bytes(Seq::<BlockMetaView>::empty()));
        assert(spec_metas_to_bytes(ms.push(m)) =~= spec_meta_record_bytes(m));
        assert(spec_metas_to_bytes(ms) + spec_meta_record_bytes(m) =~= spec_meta_record_bytes(m));
    } else {
        assert(ms.push(m).drop_first() =~= ms.drop_first().push(m));
        assert(ms.push(m)[0] == ms[0]);
        lemma_metas_bytes_push(ms.drop_first(), m);
        assert(spec_metas_to_bytes(ms.push(m)) == spec_meta_record_bytes(ms[0])
            + spec_metas_to_bytes(ms.drop_first().push(m)));
        assert(spec_metas_to_bytes(ms) == spec_meta_record_bytes(ms[0]) + spec_metas_to_bytes(
            ms.drop_first(),
        ));
        assert(spec_metas_to_bytes(ms.push(m)) =~= spec_metas_to_bytes(ms)
            + spec_meta_record_bytes(m));
    }
}

/// The full encoded meta section: the records followed by their checksum.
pub open spec fn spec_encode_metas(ms: Seq<BlockMetaView>) -> Seq<u8> {
    spec_metas_to_bytes(ms) + spec_u64_to_be_bytes(
        spec_fingerprint64(spec_metas_to_bytes(ms)),
    )
}

/// Greedy parse of the records of a meta section, stopping at the final
/// eight checksum bytes. `None` when a record runs past the section.
pub open spec fn spec_parse_metas(s: Seq<u8>, pos: int) -> Option<Seq<BlockMetaView>>
    decreases s.len() - pos,
    when 0 <= pos <= s.len()
{
    let len = s.len() as int;
    if len - pos < 8 {
        None
    } else if len - pos == 8 {
        Some(Seq::empty())
    } else {
        let offset = spec_u32_from_be_bytes(s.subrange(pos, pos + 4)) as int;
        let klen = spec_u16_from_be_bytes(s.subrange(pos + 4, pos + 6)) as int;
        if pos + 6 + klen > len {
            None
        } else {
            let key = s.subrange(pos + 6, pos + 6 + klen);
            match spec_parse_metas(s, pos + 6 + klen) {
                None => None,
                Some(rest) => Some(
                    Seq::empty().push(BlockMetaView { offset, first_key: key }) + rest,
                ),
            }
        }
    }
}

/// Decoding a meta section: the records parse and the stored checksum
/// matches the fingerprint of the record bytes.
pub open spec fn spec_decode_metas(s: Seq<u8>) -> Option<Seq<BlockMetaView>> {
    let len = s.len() as int;
    match spec_parse_metas(s, 0) {
        None => None,
        Some(ms) => {
            if spec_u64_from_be_bytes(s.subrange(len - 8, len)) == spec_fingerprint64(
                s.subrange(0, len - 8),
            ) {
                Some(ms)
            } else {
                None
            }
        },
    }
}

proof fn lemma_parse_encoded_metas(s: Seq<u8>, pos: int, ms: Seq<BlockMetaView>)
    requires
        0 <= pos <= s.len() - 8,
        s.subrange(pos, s.len() - 8) == spec_metas_to_bytes(ms),
        forall|i: int| 0 <= i < ms.len() ==> meta_encodable(#[trigger] ms[i]),
    ensures
        spec_parse_metas(s, pos) == Some(ms),
    decreases ms.len(),
{
    let len = s.len() as int;
    if ms.len() == 0 {
        assert(spec_metas_to_bytes(ms).len() == 0);
        assert(len - pos == 8);
    } else {
        let m = ms[0];
        let rec = spec_meta_record_bytes(m);
        let klen = m.first_key.len() as int;
        let whole = spec_metas_to_bytes(ms);
        let rest = spec_metas_to_bytes(ms.drop_first());
        assert(meta_encodable(m));
        assert(rec.len() == 6 + klen);
        assert(whole == rec + rest);
        assert(len - pos == 8 + whole.len());
        assert(len - pos > 8);
        crate::bytes_util::lemma_subrange_of_eq(s, pos, whole, 0, 4);
        assert(whole.subrange(0, 4) =~= spec_u32_to_be_bytes(m.offset as u32));
        lemma_u32_be_round_trip(m.offset as u32);
        crate::bytes_util::lemma_subrange_of_eq(s, pos, whole, 4, 6);
        assert(whole.subrange(4, 6) =~= spec_u16_to_be_bytes(m.first_key.len() as u16));
        lemma_u16_be_round_trip(m.first_key.len() as u16);
        crate::bytes_util::lemma_subrange_of_eq(s, pos, whole, 6, 6 + klen);
        assert(whole.subrange(6, 6 + klen) =~= m.first_key);
        crate::bytes_util::lemma_subrange_of_eq(s, pos, whole, 6 + klen, whole.len() as int);
        assert(whole.subrange(6 + klen, whole.len() as int) =~= rest);
        assert(s.subrange(pos + 6 + klen, len - 8) == rest);
        assert(forall|i: int|
            0 <= i < ms.drop_first().len() ==> meta_encodable(#[trigger] ms.drop_first()[i]));
        lemma_parse_encoded_metas(s, pos + 6 + klen, ms.drop_first());
        assert(Seq::empty().push(BlockMetaView { offset: m.offset, first_key: m.first_key })
            + ms.drop_first() =~= ms);
    }
}

/// Law: an encoded meta section decodes back to the same record sequence.
pub proof fn lemma_metas_round_trip(ms: Seq<BlockMetaView>)
    requires
        forall|i: int| 0 <= i < ms.len() ==> meta_encodable(#[trigger] ms[i]),
    ensures
        spec_decode_metas(spec_encode_metas(ms)) == Some(ms),
{
    let s = spec_encode_metas(ms);
    let len = s.len() as int;
    assert(s.subrange(0, len - 8) =~= spec_metas_to_bytes(ms));
    assert(s.subrange(len - 8, len) =~= spec_u64_to_be_bytes(
        spec_fingerprint64(spec_metas_to_bytes(ms)),
    ));
    crate::endian::lemma_u64_be_round_trip(spec_fingerprint64(spec_metas_to_bytes(ms)));
    lemma_parse_encoded_metas(s, 0, ms);
}

/// Law: corrupting the stored checksum of an encoded meta section — any
/// change to its trailing eight-byte field, in particular any single-bit
/// flip there — makes decoding fail. A flip in the record bytes changes what
/// the recomputed fingerprint sees instead, which the checksum comparison
/// catches with the strength of the fingerprint.
pub proof fn lemma_meta_checksum_tamper_detected(ms: Seq<BlockMetaView>, s2: Seq<u8>)
    requires
        forall|i: int| 0 <= i < ms.len() ==> meta_encodable(#[trigger] ms[i]),
        s2.len() == spec_encode_metas(ms).len(),
        s2.subrange(0, s2.len() - 8) == spec_encode_metas(ms).subrange(
            0,
            spec_encode_metas(ms).len() - 8,
        ),
        s2 != spec_encode_metas(ms),
    ensures
        spec_decode_metas(s2) is None,
{
    let s = spec_encode_metas(ms);
    let len = s.len() as int;
    assert(s.subrange(0, len - 8) =~= spec_metas_to_bytes(ms));
    assert(s2.subrange(0, len - 8) == spec_metas_to_bytes(ms));

    // The tampered section still parses to the same records.
    lemma_parse_encoded_metas(s2, 0, ms);

    // The stored checksum differs from the recomputed one: the recomputed
    // one covers only the unchanged record bytes, and a changed eight-byte
    // field reads as a changed value.
    assert(s.subrange(len - 8, len) =~= spec_u64_to_be_bytes(
        spec_fingerprint64(spec_metas_to_bytes(ms)),
    ));
    crate::endian::lemma_u64_be_round_trip(spec_fingerprint64(spec_metas_to_bytes(ms)));
    assert(s2.subrange(len - 8, len) != s.subrange(len - 8, len)) by {
        if s2.subrange(len - 8, len) == s.subrange(len - 8, len) {
            assert forall|i: int| 0 <= i < len implies s2[i] == s[i] by {
                if i < len - 8 {
                    assert(s2.subrange(0, len - 8)[i] == s.subrange(0, len - 8)[i]);
                } else {
                    assert(s2.subrange(len - 8, len)[i - (len - 8)] == s.subrange(
                        len - 8,
                        len,
                    )[i - (len - 8)]);
                }
            }
            assert(s2 =~= s);
        }
    }
    assert(spec_u64_from_be_bytes(s2.subrange(len - 8, len)) != spec_fingerprint64(
        s2.subrange(0, len - 8),
    )) by {
        if spec_u64_from_be_bytes(s2.subrange(len - 8, len)) == spec_fingerprint64(
            s2.subrange(0, len - 8),
        ) {
            crate::endian::lemma_u64_be_bytes_injective(
                s2.subrange(len - 8, len),
                s.subrange(len - 8, len),
            );
        }
    }
}

impl BlockMeta {
    /// Encodes the records and their checksum, appending to `buf`.
    pub fn encode_block_meta(block_meta: &[BlockMeta], buf: &mut Vec<u8>)
        requires
            forall|i: int|
                0 <= i < block_meta@.len() ==> meta_encodable(#[trigger] views_of_metas(
                    block_meta@,
                )[i]),
        ensures
            final(buf)@ == old(buf)@ + spec_encode_metas(views_of_metas(block_meta@)),
    {
        let ghost views = views_of_metas(block_meta@);
        let mut records: Vec<u8> = Vec::new();
        let mut i: usize = 0;
        proof {
            assert(records@ =~= spec_metas_to_bytes(views.subrange(0, 0)));
        }
        while i < block_meta.len()
            invariant
                i <= block_meta@.len(),
                views == views_of_metas(block_meta@),
                forall|j: int| 0 <= j < views.len() ==> meta_encodable(#[trigger] views[j]),
                records@ == spec_metas_to_bytes(views.subrange(0, i as int)),
            decreases block_meta@.len() - i,
        {
            let m = &block_meta[i];
            proof {
                assert(views[i as int] == m@);
                assert(meta_encodable(views[i as int]));
            }
            push_u32_be(&mut records, m.offset as u32);
            push_u16_be(&mut records, m.first_key.len() as u16);
            append_bytes(&mut records, m.first_key.as_slice());
            proof {
                lemma_metas_bytes_push(views.subrange(0, i as int), views[i as int]);
                assert(views.subrange(0, i as int).push(views[i as int]) =~= views.subrange(
                    0,
                    i as int + 1,
                ));
                assert(records@ =~= spec_metas_to_bytes(views.subrange(0, i as int))
                    + spec_meta_record_bytes(views[i as int]));
            }
            i += 1;
        }
        proof {
            assert(views.subrange(0, views.len() as int) =~= views);
        }
        let checksum = fingerprint64(records.as_slice());
        append_bytes(buf, records.as_slice());
        push_u64_be(buf, checksum);
        proof {
            assert(final(buf)@ =~= old(buf)@ + spec_encode_metas(views));
        }
    }

    /// Decodes a meta section (the records plus their trailing checksum),
    /// failing with `CorruptMeta` exactly when parsing fails or the checksum
    /// disagrees.
    pub fn decode_block_meta(buf: &[u8]) -> (r: Result<Vec<BlockMeta>, LsmError>)
        ensures
            match spec_decode_metas(buf@) {
                Some(ms) => r is Ok && views_of_metas(r->Ok_0@) == ms,
                None => r == Err::<Vec<BlockMeta>, LsmError>(LsmError::CorruptMeta),
            },
    {
        let len = buf.len();
        if len < 8 {
            return Err(LsmError::CorruptMeta);
        }
        let mut metas: Vec<BlockMeta> = Vec::new();
        let mut pos: usize = 0;
        proof {
            assert(views_of_metas(metas@) =~= Seq::<BlockMetaView>::empty());
        }
        while len - pos > 8
            invariant
                0 <= pos <= len,
                len == buf@.len(),
                len >= 8,
                spec_parse_metas(buf@, 0) == match spec_parse_metas(buf@, pos as int) {
                    None => None::<Seq<BlockMetaView>>,
                    Some(rest) => Some(views_of_metas(metas@) + rest),
                },
            decreases len - pos,
        {
            let offset = read_u32_be(buf, pos) as usize;
            let klen = read_u16_be(buf, pos + 4) as usize;
            if len - (pos + 6) < klen {
                proof {
                    assert(spec_parse_metas(buf@, pos as int) is None);
                }
                return Err(LsmError::CorruptMeta);
            }
            let first_key = copy_range(buf, pos + 6, pos + 6 + klen);
            let ghost prev = views_of_metas(metas@);
            metas.push(BlockMeta { offset, first_key });
            proof {
                assert(views_of_metas(metas@) =~= prev.push(
                    BlockMetaView { offset: offset as int, first_key: first_key@ },
                ));
                assert forall|rest2: Seq<BlockMetaView>|
                    spec_parse_metas(buf@, pos as int + 6 + klen as int) == Some(rest2)
                        implies spec_parse_metas(buf@, pos as int) == Some(
                        Seq::empty().push(
                            BlockMetaView { offset: offset as int, first_key: first_key@ },
                        ) + rest2,
                    ) by {}
                if spec_parse_metas(buf@, pos as int + 6 + klen as int) is Some {
                    let rest2 = spec_parse_metas(buf@, pos as int + 6 + klen as int)->Some_0;
                    assert(prev + (Seq::empty().push(
                        BlockMetaView { offset: offset as int, first_key: first_key@ },
                    ) + rest2) =~= views_of_metas(metas@) + rest2);
                }
            }
            pos = pos + 6 + klen;
        }
        if len - pos < 8 {
            proof {
                assert(spec_parse_metas(buf@, pos as int) is None);
            }
            return Err(LsmError::CorruptMeta);
        }
        proof {
            assert(len - pos == 8);
            assert(spec_parse_metas(buf@, pos as int) == Some(Seq::<BlockMetaView>::empty()));
            assert(views_of_metas(metas@) + Seq::<BlockMetaView>::empty() =~= views_of_metas(
                metas@,
            ));
        }
        let stored = read_u64_be(buf, len - 8);
        let records = vstd::slice::slice_subrange(buf, 0, len - 8);
        let expected = fingerprint64(records);
        if stored != expected {
            return Err(LsmError::CorruptMeta);
        }
        Ok(metas)
    }
}

/// An in-memory file object: random-access reads by offset and length, and a
/// size query.
pub struct FileObject {
    data: Vec<u8>,
}

impl View for FileObject {
    type V = Seq<u8>;

    closed spec fn view(&self) -> Seq<u8> {
        self.data@
    }
}

impl FileObject {
    /// Creates a file object holding `data`.
    pub fn create(data: Vec<u8>) -> (r: FileObject)
        ensures
            r@ == data@,
    {
        FileObject { data }
    }

    /// Reads `len` bytes starting at `offset`. Fails with `ShortRead`
    /// exactly when the range runs past the end of the file.
    pub fn read(&self, offset: u64, len: u64) -> (r: Result<Vec<u8>, LsmError>)
        ensures
            offset + len <= self@.len() ==> r is Ok && r->Ok_0@ == self@.subrange(
                offset as int,
                offset as int + len as int,
            ),
            offset + len > self@.len() ==> r == Err::<Vec<u8>, LsmError>(LsmError::ShortRead),
    {
        let size = self.data.len() as u64;
        if offset > size || len > size - offset {
            return Err(LsmError::ShortRead);
        }
        Ok(copy_range(self.data.as_slice(), offset as usize, (offset + len) as usize))
    }

    /// The file size in bytes.
    pub fn size(&self) -> (r: u64)
        ensures
            r == self@.len(),
    {
        self.data.len() as u64
    }
}

/// What opening an SST image yields: the decoded index records and the meta
/// offset, or nothing when the trailer or the meta section is corrupt.
pub open spec fn spec_sst_open(f: Seq<u8>) -> Option<(Seq<BlockMetaView>, int)> {
    let len = f.len() as int;
    if len < 4 {
        None
    } else {
        let mo = spec_u32_from_be_bytes(f.subrange(len - 4, len)) as int;
        if mo > len - 4 {
            None
        } else {
            match spec_decode_metas(f.subrange(mo, len - 4)) {
                None => None,
                Some(ms) => Some((ms, mo)),
            }
        }
    }
}

/// The byte region of data block `i` in an image whose data section is the
/// first `mo` bytes of `file` and whose index is `metas`.
pub open spec fn sst_region(file: Seq<u8>, metas: Seq<BlockMetaView>, mo: int, i: int) -> Seq<u8> {
    let end = if i + 1 < metas.len() {
        metas[i + 1].offset
    } else {
        mo
    };
    file.subrange(metas[i].offset, end)
}

/// The decoded content of data block `i`, when its region decodes.
pub open spec fn sst_block_at(file: Seq<u8>, metas: Seq<BlockMetaView>, mo: int, i: int) -> Option<
    BlockView,
> {
    spec_block_decode(sst_region(file, metas, mo, i))
}

/// Index soundness: block offsets strictly increasing from zero and below
/// the meta offset, first keys strictly increasing, every record encodable,
/// and the meta offset inside the file.
pub open spec fn sst_index_wf(file_len: int, metas: Seq<BlockMetaView>, mo: int) -> bool {
    &&& metas.len() > 0 ==> metas[0].offset == 0
    &&& forall|i: int, j: int|
        0 <= i < j < metas.len() ==> (#[trigger] metas[i]).offset < (#[trigger] metas[j]).offset
    &&& forall|i: int, j: int|
        0 <= i < j < metas.len() ==> lex_lt(
            (#[trigger] metas[i]).first_key,
            (#[trigger] metas[j]).first_key,
        )
    &&& forall|i: int| 0 <= i < metas.len() ==> (#[trigger] metas[i]).offset < mo
    &&& forall|i: int| 0 <= i < metas.len() ==> meta_encodable(#[trigger] metas[i])
    &&& 0 <= mo <= file_len
}

/// Block `i` decodes, its keys are non-empty and sorted, it starts with the
/// recorded first key, and all its keys precede the next block's first key.
pub open spec fn sst_block_ok(file: Seq<u8>, metas: Seq<BlockMetaView>, mo: int, i: int) -> bool {
    match sst_block_at(file, metas, mo, i) {
        None => false,
        Some(bv) => {
            let entries = block_entries(bv);
            &&& entries_sorted(entries)
            &&& entries_keys_nonempty(entries)
            &&& entries[0].0 == metas[i].first_key
            &&& i + 1 < metas.len() ==> lex_lt(entries.last().0, metas[i + 1].first_key)
        },
    }
}

/// The entries of blocks `b..`, in order.
pub open spec fn sst_entries_from(
    file: Seq<u8>,
    metas: Seq<BlockMetaView>,
    mo: int,
    b: int,
) -> Seq<(Seq<u8>, Seq<u8>)>
    decreases metas.len() - b,
    when b >= 0
{
    if b < 0 || b >= metas.len() {
        Seq::empty()
    } else {
        block_entries(sst_block_at(file, metas, mo, b)->Some_0) + sst_entries_from(
            file,
            metas,
            mo,
            b + 1,
        )
    }
}

/// The mathematical content of a table: the file bytes, the index records,
/// and the meta offset.
#[verifier::ext_equal]
pub struct SsTableView {
    pub file: Seq<u8>,
    pub metas: Seq<BlockMetaView>,
    pub meta_offset: int,
}

/// The decoded content of data block `i` of a table.
pub open spec fn view_block_at(v: SsTableView, i: int) -> Option<BlockView> {
    sst_block_at(v.file, v.metas, v.meta_offset, i)
}

/// At least one block, with a sound index.
pub open spec fn view_index_wf(v: SsTableView) -> bool {
    &&& v.metas.len() >= 1
    &&& sst_index_wf(v.file.len() as int, v.metas, v.meta_offset)
}

/// Block `i` of the table is sound.
pub open spec fn view_block_ok(v: SsTableView, i: int) -> bool {
    sst_block_ok(v.file, v.metas, v.meta_offset, i)
}

/// The index is sound and every block is.
pub open spec fn view_data_wf(v: SsTableView) -> bool {
    &&& view_index_wf(v)
    &&& forall|i: int| 0 <= i < v.metas.len() ==> #[trigger] view_block_ok(v, i)
}

/// The entries of blocks `b..` of the table, in order.
pub open spec fn view_entries_from(v: SsTableView, b: int) -> Seq<(Seq<u8>, Seq<u8>)> {
    sst_entries_from(v.file, v.metas, v.meta_offset, b)
}

/// An immutable sorted-string table: data blocks, their index records, and
/// the byte position where the meta section starts.
pub struct SsTable {
    /// The underlying storage of the table.
    file: FileObject,
    /// The index records for the data blocks.
    block_metas: Vec<BlockMeta>,
    /// The start of the meta section in `file`.
    block_meta_offset: usize,
}

impl View for SsTable {
    type V = SsTableView;

    closed spec fn view(&self) -> SsTableView {
        SsTableView {
            file: self.file@,
            metas: views_of_metas(self.block_metas@),
            meta_offset: self.block_meta_offset as int,
        }
    }
}

impl SsTable {
    /// The raw bytes of the file.
    pub open spec fn spec_file(&self) -> Seq<u8> {
        self@.file
    }

    /// The index records.
    pub open spec fn spec_metas(&self) -> Seq<BlockMetaView> {
        self@.metas
    }

    /// The byte position where the meta section starts, which is also the
    /// byte length of the data-block section.
    pub open spec fn spec_meta_offset(&self) -> int {
        self@.meta_offset
    }

    /// The decoded content of data block `i`, when its region decodes.
    pub open spec fn spec_block_at(&self, i: int) -> Option<BlockView> {
        view_block_at(self@, i)
    }

    /// Index well-formedness: at least one block with a sound index.
    pub open spec fn index_wf(&self) -> bool {
        view_index_wf(self@)
    }

    /// Block `i` decodes, its keys are non-empty, sorted, start with the
    /// recorded first key, and all precede the next block's first key.
    pub open spec fn block_ok_at(&self, i: int) -> bool {
        view_block_ok(self@, i)
    }

    /// Full well-formedness: the index is sound and every block is.
    pub open spec fn data_wf(&self) -> bool {
        view_data_wf(self@)
    }

    /// The entries of blocks `b..` in order.
    pub open spec fn entries_from_block(&self, b: int) -> Seq<(Seq<u8>, Seq<u8>)> {
        view_entries_from(self@, b)
    }

    /// Every entry of the table, in key order.
    pub open spec fn sst_entries(&self) -> Seq<(Seq<u8>, Seq<u8>)> {
        view_entries_from(self@, 0)
    }

    /// Assembles a table from its raw parts.
    pub(crate) fn from_parts(
        file: FileObject,
        block_metas: Vec<BlockMeta>,
        block_meta_offset: usize,
    ) -> (r: SsTable)
        ensures
            r.spec_file() == file@,
            r.spec_metas() == views_of_metas(block_metas@),
            r.spec_meta_offset() == block_meta_offset as int,
    {
        SsTable { file, block_metas, block_meta_offset }
    }

    /// Opens an SST from a file: reads the trailing meta offset, then
    /// decodes the index records. Fails with `CorruptMeta` exactly when the
    /// trailer points outside the file or the meta section does not decode.
    pub fn open(file: FileObject) -> (r: Result<SsTable, LsmError>)
        ensures
            match spec_sst_open(file@) {
                Some(parts) => r is Ok && r->Ok_0.spec_file() == file@
                    && r->Ok_0.spec_metas() == parts.0 && r->Ok_0.spec_meta_offset() == parts.1,
                None => r == Err::<SsTable, LsmError>(LsmError::CorruptMeta),
            },
    {
        let size = file.size();
        if size < 4 {
            return Err(LsmError::CorruptMeta);
        }
        let meta_offset_bytes = match file.read(size - 4, 4) {
            Ok(b) => b,
            Err(_) => {
                return Err(LsmError::CorruptMeta);
            },
        };
        let meta_offset = read_u32_be(meta_offset_bytes.as_slice(), 0) as u64;
        proof {
            assert(meta_offset_bytes@.subrange(0, 4) =~= meta_offset_bytes@);
        }
        if meta_offset > size - 4 {
            return Err(LsmError::CorruptMeta);
        }
        let meta_section = match file.read(meta_offset, size - 4 - meta_offset) {
            Ok(b) => b,
            Err(_) => {
                return Err(LsmError::CorruptMeta);
            },
        };
        let block_metas = match BlockMeta::decode_block_meta(meta_section.as_slice()) {
            Ok(ms) => ms,
            Err(_) => {
                return Err(LsmError::CorruptMeta);
            },
        };
        Ok(SsTable { file, block_metas, block_meta_offset: meta_offset as usize })
    }

    /// Reads and decodes data block `block_idx`. Under a sound index the
    /// read itself cannot fail; a block that does not decode surfaces
    /// `CorruptBlock`.
    pub fn read_block(&self, block_idx: usize) -> (r: Result<Arc<Block>, LsmError>)
        requires
            self.index_wf(),
            (block_idx as int) < self.spec_metas().len(),
        ensures
            match self.spec_block_at(block_idx as int) {
                Some(bv) => r is Ok && r->Ok_0@ == bv,
                None => r == Err::<Arc<Block>, LsmError>(LsmError::CorruptBlock),
            },
    {
        proof {
            assert(self.spec_metas().len() == self.block_metas@.len());
        }
        let nb = self.block_metas.len();
        let block_offset = self.block_metas[block_idx].offset;
        let block_end = if block_idx + 1 < nb {
            self.block_metas[block_idx + 1].offset
        } else {
            self.block_meta_offset
        };
        proof {
            assert(self.spec_metas()[block_idx as int] == self.block_metas@[block_idx as int]@);
            if block_idx as int + 1 < nb as int {
                assert(self.spec_metas()[block_idx as int + 1]
                    == self.block_metas@[block_idx as int + 1]@);
            }
            assert(block_offset < block_end);
        }
        let block_data = match self.file.read(
            block_offset as u64,
            (block_end - block_offset) as u64,
        ) {
            Ok(b) => b,
            Err(e) => {
                proof {
                    assert(false);
                }
                return Err(e);
            },
        };
        match Block::decode(block_data.as_slice()) {
            Ok(b) => Ok(Arc::new(b)),
            Err(e) => Err(e),
        }
    }

    /// Finds the block that may contain `key`: the block whose first key is
    /// the largest one `<= key`, saturating to block 0 for keys below the
    /// table's range. Callers validate by seeking within the block.
    pub fn find_block_idx(&self, key: &[u8]) -> (r: usize)
        requires
            self.index_wf(),
        ensures
            (r as int) < self.spec_metas().len(),
            lex_lt(key@, self.spec_metas()[0].first_key) ==> r == 0,
            !lex_lt(key@, self.spec_metas()[0].first_key) ==> lex_le(
                self.spec_metas()[r as int].first_key,
                key@,
            ) && (r as int + 1 == self.spec_metas().len() || lex_lt(
                key@,
                self.spec_metas()[r as int + 1].first_key,
            )),
    {
        let ghost ms = self.spec_metas();
        let n = self.block_metas.len();
        let mut low: usize = 0;
        let mut high: usize = n;
        while low < high
            invariant
                low <= high <= n,
                n == ms.len(),
                ms == self.spec_metas(),
                self.index_wf(),
                forall|j: int| 0 <= j < low as int ==> lex_lt((#[trigger] ms[j]).first_key, key@),
                forall|j: int| high as int <= j < n ==> lex_lt(key@, (#[trigger] ms[j]).first_key),
            decreases high - low,
        {
            let mid = low + (high - low) / 2;
            proof {
                assert(ms[mid as int] == self.block_metas@[mid as int]@);
            }
            let curr_key = self.block_metas[mid].first_key.as_slice();
            match compare_keys(curr_key, key) {
                KeyOrdering::Less => {
                    proof {
                        assert forall|j: int| 0 <= j < mid as int + 1 implies lex_lt(
                            (#[trigger] ms[j]).first_key,
                            key@,
                        ) by {
                            if j < mid as int {
                                lemma_lex_lt_transitive(
                                    ms[j].first_key,
                                    ms[mid as int].first_key,
                                    key@,
                                );
                            }
                        }
                    }
                    low = mid + 1;
                },
                KeyOrdering::Greater => {
                    proof {
                        assert forall|j: int| mid as int <= j < n implies lex_lt(
                            key@,
                            (#[trigger] ms[j]).first_key,
                        ) by {
                            if j > mid as int {
                                lemma_lex_lt_transitive(
                                    key@,
                                    ms[mid as int].first_key,
                                    ms[j].first_key,
                                );
                            }
                        }
                    }
                    high = mid;
                },
                KeyOrdering::Equal => {
                    proof {
                        assert(lex_le(ms[mid as int].first_key, key@));
                        if mid as int + 1 < n {
                            assert(lex_lt(ms[mid as int].first_key, ms[mid as int + 1].first_key));
                        }
                        if mid as int > 0 {
                            assert(lex_lt(ms[0].first_key, ms[mid as int].first_key));
                            lemma_lex_trichotomy(key@, ms[0].first_key);
                        } else {
                            lemma_lex_trichotomy(key@, ms[0].first_key);
                        }
                    }
                    return mid;
                },
            }
        }
        proof {
            if low == 0 {
                assert(lex_lt(key@, ms[0].first_key));
            } else {
                assert(lex_lt(ms[low as int - 1].first_key, key@));
                lemma_lex_trichotomy(key@, ms[0].first_key);
                if low as int - 1 > 0 {
                    assert(lex_lt(ms[0].first_key, ms[low as int - 1].first_key));
                    lemma_lex_lt_transitive(ms[0].first_key, ms[low as int - 1].first_key, key@);
                    lemma_lex_trichotomy(key@, ms[0].first_key);
                }
            }
        }
        if low == 0 {
            0
        } else {
            low - 1
        }
    }

    /// The number of data blocks.
    pub fn num_of_blocks(&self) -> (r: usize)
        ensures
            r == self.spec_metas().len(),
    {
        self.block_metas.len()
    }

    /// A copy of the complete byte image of the table.
    pub fn raw_image(&self) -> (r: Vec<u8>)
        ensures
            r@ == self.spec_file(),
    {
        let size = self.file.size();
        match self.file.read(0, size) {
            Ok(bytes) => {
                proof {
                    assert(self@.file.subrange(0, self@.file.len() as int) =~= self@.file);
                }
                bytes
            },
            Err(_) => {
                proof {
                    assert(false);
                }
                Vec::new()
            },
        }
    }
}

/// The entries of a sound table, from any block on, are sorted with
/// non-empty keys, and all at or above that block's first key.
pub proof fn lemma_view_entries_sorted(v: SsTableView, b: int)
    requires
        view_data_wf(v),
        0 <= b <= v.metas.len(),
    ensures
        entries_sorted(view_entries_from(v, b)),
        entries_keys_nonempty(view_entries_from(v, b)),
        b < v.metas.len() ==> forall|e: int|
            0 <= e < view_entries_from(v, b).len() ==> lex_le(
                v.metas[b].first_key,
                (#[trigger] view_entries_from(v, b)[e]).0,
            ),
    decreases v.metas.len() - b,
{
    let n = v.metas.len() as int;
    if b == n {
        assert(view_entries_from(v, b) =~= Seq::<(Seq<u8>, Seq<u8>)>::empty());
    } else {
        lemma_view_entries_sorted(v, b + 1);
        assert(view_block_ok(v, b));
        let bv = view_block_at(v, b)->Some_0;
        let entries = block_entries(bv);
        let rest = view_entries_from(v, b + 1);
        let whole = view_entries_from(v, b);
        assert(whole == entries + rest);
        assert(entries.len() > 0) by {
            assert(wf_block(bv));
        }
        if b + 1 < n {
            assert(lex_lt(v.metas[b].first_key, v.metas[b + 1].first_key));
        }
        assert forall|i: int, j: int| 0 <= i < j < whole.len() implies lex_lt(
            #[trigger] whole[i].0,
            #[trigger] whole[j].0,
        ) by {
            if j < entries.len() {
                assert(lex_lt(entries[i].0, entries[j].0));
            } else if i >= entries.len() {
                assert(lex_lt(rest[i - entries.len()].0, rest[j - entries.len()].0));
            } else {
                // Across the block boundary: every key of this block is at
                // most its last, which precedes the next block's first key,
                // which bounds the rest from below.
                assert(whole[i] == entries[i]);
                assert(whole[j] == rest[j - entries.len()]);
                assert(b + 1 < n);
                if i < entries.len() - 1 {
                    assert(lex_lt(entries[i].0, entries.last().0));
                }
                assert(lex_lt(entries.last().0, v.metas[b + 1].first_key));
                assert(lex_le(v.metas[b + 1].first_key, rest[j - entries.len()].0));
                lemma_lex_le_lt_transitive2(
                    entries[i].0,
                    entries.last().0,
                    v.metas[b + 1].first_key,
                    rest[j - entries.len()].0,
                );
            }
        }
        assert forall|e: int| 0 <= e < whole.len() implies (#[trigger] whole[e]).0.len() > 0 by {
            if e < entries.len() {
                assert(whole[e] == entries[e]);
                assert(entries[e].0.len() > 0);
            } else {
                assert(whole[e] == rest[e - entries.len()]);
                assert(rest[e - entries.len()].0.len() > 0);
            }
        }
        assert forall|e: int| 0 <= e < whole.len() implies lex_le(
            v.metas[b].first_key,
            (#[trigger] whole[e]).0,
        ) by {
            if e < entries.len() {
                assert(whole[e] == entries[e]);
                assert(entries[0].0 == v.metas[b].first_key);
                if e > 0 {
                    assert(lex_lt(entries[0].0, entries[e].0));
                }
            } else {
                assert(whole[e] == rest[e - entries.len()]);
                assert(b + 1 < n);
                assert(lex_le(v.metas[b + 1].first_key, rest[e - entries.len()].0));
                assert(lex_lt(v.metas[b].first_key, v.metas[b + 1].first_key));
                lemma_lex_lt_le_transitive(
                    v.metas[b].first_key,
                    v.metas[b + 1].first_key,
                    rest[e - entries.len()].0,
                );
            }
        }
    }
}

/// Chains `a <= b < c <= d` into `a < d`.
proof fn lemma_lex_le_lt_transitive2(a: Seq<u8>, b: Seq<u8>, c: Seq<u8>, d: Seq<u8>)
    requires
        lex_le(a, b),
        lex_lt(b, c),
        lex_le(c, d),
    ensures
        lex_lt(a, d),
{
    crate::keys::lemma_lex_le_lt_transitive(a, b, c);
    lemma_lex_lt_le_transitive(a, c, d);
}

/// The table's entries split into the entries of blocks before `b` — all of
/// whose keys precede block `b`'s first key — and the entries from `b` on.
pub proof fn lemma_view_entries_prefix(v: SsTableView, b: int) -> (p: Seq<(Seq<u8>, Seq<u8>)>)
    requires
        view_data_wf(v),
        0 <= b <= v.metas.len(),
    ensures
        view_entries_from(v, 0) == p + view_entries_from(v, b),
        b < v.metas.len() ==> forall|i: int|
            0 <= i < p.len() ==> lex_lt((#[trigger] p[i]).0, v.metas[b].first_key),
    decreases b,
{
    if b == 0 {
        let p = Seq::<(Seq<u8>, Seq<u8>)>::empty();
        assert(view_entries_from(v, 0) =~= p + view_entries_from(v, 0));
        p
    } else {
        let p1 = lemma_view_entries_prefix(v, b - 1);
        assert(view_block_ok(v, b - 1));
        let bv = view_block_at(v, b - 1)->Some_0;
        let entries = block_entries(bv);
        assert(entries.len() > 0) by {
            assert(wf_block(bv));
        }
        assert(view_entries_from(v, b - 1) == entries + view_entries_from(v, b));
        let p = p1 + entries;
        assert(view_entries_from(v, 0) =~= p + view_entries_from(v, b));
        if b < v.metas.len() {
            assert forall|i: int| 0 <= i < p.len() implies lex_lt(
                (#[trigger] p[i]).0,
                v.metas[b].first_key,
            ) by {
                assert(lex_lt(v.metas[b - 1].first_key, v.metas[b].first_key));
                if i < p1.len() {
                    assert(p[i] == p1[i]);
                    assert(lex_lt(p1[i].0, v.metas[b - 1].first_key));
                    lemma_lex_lt_transitive(
                        p1[i].0,
                        v.metas[b - 1].first_key,
                        v.metas[b].first_key,
                    );
                } else {
                    assert(p[i] == entries[i - p1.len()]);
                    assert(lex_lt(entries.last().0, v.metas[b].first_key));
                    if i - p1.len() < entries.len() - 1 {
                        assert(lex_lt(entries[i - p1.len()].0, entries.last().0));
                        lemma_lex_lt_transitive(
                            entries[i - p1.len()].0,
                            entries.last().0,
                            v.metas[b].first_key,
                        );
                    } else {
                        assert(entries[i - p1.len()] == entries.last());
                    }
                }
            }
        }
        p
    }
}

/// Law: if a key exists in the table, it lies in the block that
/// `find_block_idx` returns — any index satisfying that function's
/// characterization is the block holding the key.
pub proof fn lemma_find_block_idx_locates(v: SsTableView, key: Seq<u8>, j: int, r: int)
    requires
        view_data_wf(v),
        0 <= j < v.metas.len(),
        exists|e: int|
            0 <= e < block_entries(view_block_at(v, j)->Some_0).len() && (
            #[trigger] block_entries(view_block_at(v, j)->Some_0)[e]).0 == key,
        0 <= r < v.metas.len(),
        lex_lt(key, v.metas[0].first_key) ==> r == 0,
        !lex_lt(key, v.metas[0].first_key) ==> lex_le(v.metas[r].first_key, key) && (r + 1
            == v.metas.len() || lex_lt(key, v.metas[r + 1].first_key)),
    ensures
        r == j,
{
    let n = v.metas.len() as int;
    assert(view_block_ok(v, j));
    let entries = block_entries(view_block_at(v, j)->Some_0);
    let e = choose|e: int| 0 <= e < entries.len() && entries[e].0 == key;
    // The key is at or above this block's first key...
    assert(lex_le(v.metas[j].first_key, key)) by {
        assert(entries[0].0 == v.metas[j].first_key);
        if e > 0 {
            assert(lex_lt(entries[0].0, entries[e].0));
        }
    }
    // ...and below the next block's first key.
    if j + 1 < n {
        assert(lex_lt(key, v.metas[j + 1].first_key)) by {
            if e < entries.len() - 1 {
                assert(lex_lt(entries[e].0, entries.last().0));
                lemma_lex_lt_transitive(entries[e].0, entries.last().0, v.metas[j + 1].first_key);
            } else {
                assert(entries[e] == entries.last());
            }
        }
    }
    // So the key is not below the table's range.
    assert(!lex_lt(key, v.metas[0].first_key)) by {
        if j > 0 {
            assert(lex_lt(v.metas[0].first_key, v.metas[j].first_key));
            lemma_lex_lt_le_transitive(v.metas[0].first_key, v.metas[j].first_key, key);
            lemma_lex_trichotomy(key, v.metas[0].first_key);
        } else {
            lemma_lex_trichotomy(key, v.metas[0].first_key);
        }
    }
    if r < j {
        assert(lex_lt(key, v.metas[r + 1].first_key));
        assert(lex_le(v.metas[r + 1].first_key, v.metas[j].first_key)) by {
            if r + 1 < j {
                assert(lex_lt(v.metas[r + 1].first_key, v.metas[j].first_key));
            }
        }
        lemma_lex_lt_le_transitive(key, v.metas[r + 1].first_key, v.metas[j].first_key);
        crate::keys::lemma_lex_le_lt_transitive(v.metas[j].first_key, key, v.metas[j].first_key);
        lemma_lex_trichotomy(v.metas[j].first_key, v.metas[j].first_key);
    }
    if r > j {
        assert(lex_lt(v.metas[j].first_key, v.metas[r].first_key));
        assert(lex_lt(key, v.metas[j + 1].first_key));
        assert(lex_le(v.metas[j + 1].first_key, v.metas[r].first_key)) by {
            if j + 1 < r {
                assert(lex_lt(v.metas[j + 1].first_key, v.metas[r].first_key));
            }
        }
        lemma_lex_lt_le_transitive(key, v.metas[j + 1].first_key, v.metas[r].first_key);
        crate::keys::lemma_lex_le_lt_transitive(v.metas[r].first_key, key, v.metas[r].first_key);
        lemma_lex_trichotomy(v.metas[r].first_key, v.metas[r].first_key);
    }
}

} // verus!
