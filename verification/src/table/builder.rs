//! Streams sorted key-value input into sized blocks, accumulates the block
//! index, and emits a complete SST image.

use vstd::prelude::*;

use crate::block::builder::BlockBuilder;
use crate::block::{block_entries, spec_block_encode, wf_block, BlockView};
use crate::block::lemma_block_round_trip;
use crate::block::lemma_offsets_to_bytes_len;
use crate::bytes_util::append_bytes;
use crate::endian::push_u32_be;
use crate::keys::{
    entries_keys_nonempty, entries_sorted, lemma_lex_lt_transitive, lex_lt,
};
use crate::table::{
    meta_encodable, spec_encode_metas, sst_block_at, sst_block_ok, sst_entries_from, sst_index_wf,
    sst_region, view_block_ok, view_data_wf, view_entries_from, views_of_metas, BlockMeta,
    BlockMetaView, FileObject, SsTable, SsTableView,
};
use vstd::slice::slice_to_vec;

verus! {

/// Extending the file past `mo` leaves every block region, every decoded
/// block, and the entry sequence unchanged.
proof fn lemma_sst_parts_stable(
    file: Seq<u8>,
    file2: Seq<u8>,
    metas: Seq<BlockMetaView>,
    mo: int,
    b: int,
)
    requires
        sst_index_wf(file.len() as int, metas, mo),
        file2.len() >= mo,
        file2.subrange(0, mo) == file.subrange(0, mo),
        0 <= b,
    ensures
        forall|i: int|
            b <= i < metas.len() ==> sst_region(file2, metas, mo, i) == sst_region(
                file,
                metas,
                mo,
                i,
            ),
        sst_entries_from(file2, metas, mo, b) == sst_entries_from(file, metas, mo, b),
    decreases metas.len() - b,
{
    assert forall|i: int| b <= i < metas.len() implies sst_region(file2, metas, mo, i)
        == sst_region(file, metas, mo, i) by {
        let start = metas[i].offset;
        let end = if i + 1 < metas.len() {
            metas[i + 1].offset
        } else {
            mo
        };
        assert(meta_encodable(metas[i]));
        assert(metas[i].offset < mo);
        if i + 1 < metas.len() {
            assert(metas[i].offset < metas[i + 1].offset);
            assert(metas[i + 1].offset < mo);
        }
        assert(0 <= start <= end <= mo);
        assert forall|k: int| 0 <= k < end - start implies file2.subrange(start, end)[k]
            == file.subrange(start, end)[k] by {
            assert(file2.subrange(start, end)[k] == file2[start + k]);
            assert(file.subrange(start, end)[k] == file[start + k]);
            assert(file2.subrange(0, mo)[start + k] == file2[start + k]);
            assert(file.subrange(0, mo)[start + k] == file[start + k]);
            assert(file2.subrange(0, mo)[start + k] == file.subrange(0, mo)[start + k]);
        }
        assert(file2.subrange(start, end) =~= file.subrange(start, end));
    }
    if b < metas.len() {
        lemma_sst_parts_stable(file, file2, metas, mo, b + 1);
        assert(sst_region(file2, metas, mo, b) == sst_region(file, metas, mo, b));
    } else {
        assert(sst_entries_from(file2, metas, mo, b) =~= sst_entries_from(file, metas, mo, b));
    }
}

/// When every region of the extended parts agrees with the old parts and the
/// new last block decodes to `bv`, the entry sequence gains exactly `bv`'s
/// entries.
proof fn lemma_entries_push_block(
    data: Seq<u8>,
    metas: Seq<BlockMetaView>,
    mo: int,
    data2: Seq<u8>,
    metas2: Seq<BlockMetaView>,
    mo2: int,
    bv: BlockView,
    b: int,
)
    requires
        metas2.len() == metas.len() + 1,
        forall|i: int|
            0 <= i < metas.len() ==> sst_block_at(data2, metas2, mo2, i) == sst_block_at(
                data,
                metas,
                mo,
                i,
            ),
        sst_block_at(data2, metas2, mo2, metas.len() as int) == Some(bv),
        0 <= b <= metas.len(),
    ensures
        sst_entries_from(data2, metas2, mo2, b) == sst_entries_from(data, metas, mo, b)
            + block_entries(bv),
    decreases metas.len() - b,
{
    let n = metas.len() as int;
    if b < n {
        lemma_entries_push_block(data, metas, mo, data2, metas2, mo2, bv, b + 1);
        assert(sst_entries_from(data2, metas2, mo2, b) =~= sst_entries_from(data, metas, mo, b)
            + block_entries(bv));
    } else {
        assert(sst_entries_from(data, metas, mo, n) =~= Seq::<(Seq<u8>, Seq<u8>)>::empty());
        assert(sst_entries_from(data2, metas2, mo2, n + 1) =~= Seq::<(Seq<u8>, Seq<u8>)>::empty());
        assert(sst_entries_from(data2, metas2, mo2, n) == block_entries(bv)
            + sst_entries_from(data2, metas2, mo2, n + 1));
        assert(sst_entries_from(data2, metas2, mo2, n) =~= sst_entries_from(data, metas, mo, n)
            + block_entries(bv));
    }
}

/// Pushing one encoded block leaves the old regions untouched and makes the
/// new last region exactly the encoding.
#[verifier::rlimit(100)]
proof fn lemma_regions_after_push(data: Seq<u8>, metas: Seq<BlockMetaView>, bv: BlockView)
    requires
        sst_index_wf(data.len() as int, metas, data.len() as int),
        wf_block(bv),
    ensures
        ({
            let data2 = data + spec_block_encode(bv);
            let metas2 = metas.push(
                BlockMetaView { offset: data.len() as int, first_key: block_entries(bv)[0].0 },
            );
            let mo2 = data2.len() as int;
            &&& forall|i: int|
                0 <= i < metas.len() ==> sst_region(data2, metas2, mo2, i) == sst_region(
                    data,
                    metas,
                    data.len() as int,
                    i,
                )
            &&& sst_region(data2, metas2, mo2, metas.len() as int) == spec_block_encode(bv)
        }),
{
    let enc = spec_block_encode(bv);
    let data2 = data + enc;
    let m = BlockMetaView { offset: data.len() as int, first_key: block_entries(bv)[0].0 };
    let metas2 = metas.push(m);
    let mo2 = data2.len() as int;
    let n = metas.len() as int;
    lemma_offsets_to_bytes_len(bv.offsets);
    assert(enc.len() >= 10);
    assert forall|i: int| 0 <= i < n implies sst_region(data2, metas2, mo2, i) == sst_region(
        data,
        metas,
        data.len() as int,
        i,
    ) by {
        let start = metas[i].offset;
        let end = if i + 1 < n {
            metas[i + 1].offset
        } else {
            data.len() as int
        };
        assert(meta_encodable(metas[i]));
        assert(metas[i].offset < data.len());
        if i + 1 < n {
            assert(metas[i].offset < metas[i + 1].offset);
            assert(metas[i + 1].offset < data.len());
        }
        assert(metas2[i] == metas[i]);
        assert(metas2[i + 1] == if i + 1 < n {
            metas[i + 1]
        } else {
            m
        });
        assert(0 <= start <= end <= data.len());
        assert(sst_region(data2, metas2, mo2, i) == data2.subrange(start, end));
        assert forall|k: int| 0 <= k < end - start implies data2.subrange(start, end)[k]
            == data.subrange(start, end)[k] by {
            assert(data2.subrange(start, end)[k] == data2[start + k]);
            assert(data.subrange(start, end)[k] == data[start + k]);
            assert(data2[start + k] == data[start + k]);
        }
        assert(data2.subrange(start, end) =~= data.subrange(start, end));
    }
    assert(sst_region(data2, metas2, mo2, n) =~= enc);
}

/// Appending one encoded block to the data section, with its index record,
/// keeps the parts sound and appends the block's entries.
#[verifier::rlimit(100)]
proof fn lemma_finalized_block(data: Seq<u8>, metas: Seq<BlockMetaView>, bv: BlockView)
    requires
        sst_index_wf(data.len() as int, metas, data.len() as int),
        forall|i: int| 0 <= i < metas.len() ==> sst_block_ok(data, metas, data.len() as int, i),
        metas.len() == 0 ==> data.len() == 0,
        wf_block(bv),
        entries_sorted(block_entries(bv)),
        entries_keys_nonempty(block_entries(bv)),
        metas.len() > 0 ==> lex_lt(
            block_entries(sst_block_at(data, metas, data.len() as int, metas.len() - 1)->Some_0)
                .last().0,
            block_entries(bv)[0].0,
        ),
        forall|i: int|
            0 <= i < metas.len() ==> lex_lt(
                (#[trigger] metas[i]).first_key,
                block_entries(bv)[0].0,
            ),
        data.len() <= 0xffff_ffff,
    ensures
        ({
            let data2 = data + spec_block_encode(bv);
            let metas2 = metas.push(
                BlockMetaView { offset: data.len() as int, first_key: block_entries(bv)[0].0 },
            );
            let mo2 = data2.len() as int;
            &&& sst_index_wf(data2.len() as int, metas2, mo2)
            &&& forall|i: int| 0 <= i < metas2.len() ==> sst_block_ok(data2, metas2, mo2, i)
            &&& sst_entries_from(data2, metas2, mo2, 0) == sst_entries_from(
                data,
                metas,
                data.len() as int,
                0,
            ) + block_entries(bv)
        }),
{
    let enc = spec_block_encode(bv);
    let data2 = data + enc;
    let fk = block_entries(bv)[0].0;
    let m = BlockMetaView { offset: data.len() as int, first_key: fk };
    let metas2 = metas.push(m);
    let mo2 = data2.len() as int;
    let n = metas.len() as int;

    // The key of the first entry fits sixteen bits, so the new record is
    // encodable.
    assert(crate::block::entry_wf_at(bv.data, bv.offsets, 0));
    assert(fk.len() <= 0xffff);
    lemma_offsets_to_bytes_len(bv.offsets);
    assert(enc.len() >= 10);

    // Old regions are untouched; the new region is exactly the encoding.
    lemma_regions_after_push(data, metas, bv);
    lemma_block_round_trip(bv);
    assert(sst_block_at(data2, metas2, mo2, n) == Some(bv));

    lemma_parts_sound_after_push(data, metas, bv);

    // The entry sequence gains exactly the new block's entries.
    lemma_entries_push_block(data, metas, data.len() as int, data2, metas2, mo2, bv, 0);
}

/// The index and every block stay sound when one encoded block is pushed.
#[verifier::rlimit(100)]
proof fn lemma_parts_sound_after_push(data: Seq<u8>, metas: Seq<BlockMetaView>, bv: BlockView)
    requires
        sst_index_wf(data.len() as int, metas, data.len() as int),
        forall|i: int| 0 <= i < metas.len() ==> sst_block_ok(data, metas, data.len() as int, i),
        metas.len() == 0 ==> data.len() == 0,
        wf_block(bv),
        entries_sorted(block_entries(bv)),
        entries_keys_nonempty(block_entries(bv)),
        metas.len() > 0 ==> lex_lt(
            block_entries(sst_block_at(data, metas, data.len() as int, metas.len() - 1)->Some_0)
                .last().0,
            block_entries(bv)[0].0,
        ),
        forall|i: int|
            0 <= i < metas.len() ==> lex_lt(
                (#[trigger] metas[i]).first_key,
                block_entries(bv)[0].0,
            ),
        data.len() <= 0xffff_ffff,
    ensures
        ({
            let data2 = data + spec_block_encode(bv);
            let metas2 = metas.push(
                BlockMetaView { offset: data.len() as int, first_key: block_entries(bv)[0].0 },
            );
            let mo2 = data2.len() as int;
            &&& sst_index_wf(data2.len() as int, metas2, mo2)
            &&& forall|i: int| 0 <= i < metas2.len() ==> sst_block_ok(data2, metas2, mo2, i)
        }),
{
    let enc = spec_block_encode(bv);
    let data2 = data + enc;
    let fk = block_entries(bv)[0].0;
    let m = BlockMetaView { offset: data.len() as int, first_key: fk };
    let metas2 = metas.push(m);
    let mo2 = data2.len() as int;
    let n = metas.len() as int;
    assert(crate::block::entry_wf_at(bv.data, bv.offsets, 0));
    assert(fk.len() <= 0xffff);
    lemma_offsets_to_bytes_len(bv.offsets);
    assert(enc.len() >= 10);
    lemma_regions_after_push(data, metas, bv);
    lemma_block_round_trip(bv);
    assert(sst_block_at(data2, metas2, mo2, n) == Some(bv));

    // Index soundness of the extended parts.
    assert(sst_index_wf(data2.len() as int, metas2, mo2)) by {
        assert(forall|i: int| 0 <= i < n ==> (#[trigger] metas2[i]) == metas[i]);
        assert(metas2[n] == m);
        assert(metas2.len() > 0 ==> metas2[0].offset == 0) by {
            if n > 0 {
                assert(metas2[0] == metas[0]);
            }
        }
    }

    // Every block of the extended parts is sound.
    assert forall|i: int| 0 <= i < metas2.len() implies sst_block_ok(data2, metas2, mo2, i) by {
        if i < n {
            assert(sst_block_ok(data, metas, data.len() as int, i));
            if i + 1 < n {
                assert(metas2[i + 1] == metas[i + 1]);
            } else {
                // The cross-block bound against the new block's first key.
                assert(i == n - 1);
                assert(metas2[i + 1] == m);
            }
        }
    }
}

/// The last entry of the parts is the last entry of the last block.
proof fn lemma_sst_entries_last(data: Seq<u8>, metas: Seq<BlockMetaView>, mo: int, b: int)
    requires
        forall|i: int| 0 <= i < metas.len() ==> sst_block_ok(data, metas, mo, i),
        0 <= b < metas.len(),
    ensures
        sst_entries_from(data, metas, mo, b).len() > 0,
        sst_entries_from(data, metas, mo, b).last() == block_entries(
            sst_block_at(data, metas, mo, metas.len() - 1)->Some_0,
        ).last(),
    decreases metas.len() - b,
{
    let n = metas.len() as int;
    assert(sst_block_ok(data, metas, mo, b));
    let entries = block_entries(sst_block_at(data, metas, mo, b)->Some_0);
    assert(entries.len() > 0) by {
        assert(wf_block(sst_block_at(data, metas, mo, b)->Some_0));
    }
    if b == n - 1 {
        assert(sst_entries_from(data, metas, mo, n) =~= Seq::<(Seq<u8>, Seq<u8>)>::empty());
        assert(sst_entries_from(data, metas, mo, b) == entries + sst_entries_from(
            data,
            metas,
            mo,
            n,
        ));
        assert(sst_entries_from(data, metas, mo, b).last() == entries.last());
    } else {
        lemma_sst_entries_last(data, metas, mo, b + 1);
    }
}

/// Builds an SST from key-value pairs fed in strictly increasing key order.
pub struct SsTableBuilder {
    /// Index records of the finalized blocks.
    meta: Vec<BlockMeta>,
    /// The encoded finalized blocks.
    data: Vec<u8>,
    /// The target block size.
    block_size: usize,
    /// The block being filled.
    current_block: BlockBuilder,
    /// The first key of the block being filled.
    first_key: Vec<u8>,
    /// All entries added so far.
    added: Ghost<Seq<(Seq<u8>, Seq<u8>)>>,
}

impl SsTableBuilder {
    /// All entries added so far, in order.
    pub closed spec fn spec_added(&self) -> Seq<(Seq<u8>, Seq<u8>)> {
        self.added@
    }

    /// The target block size.
    pub closed spec fn spec_block_size(&self) -> int {
        self.block_size as int
    }

    /// The byte length of the finalized data section.
    pub closed spec fn spec_data_size(&self) -> int {
        self.data@.len() as int
    }

    /// The index records of the finalized blocks, in order.
    pub closed spec fn spec_metas(&self) -> Seq<BlockMetaView> {
        views_of_metas(self.meta@)
    }

    /// The entries of the in-flight block.
    pub closed spec fn spec_pending(&self) -> Seq<(Seq<u8>, Seq<u8>)> {
        self.current_block.entries()
    }

    /// The size the in-flight block would encode to, checksum excluded.
    pub closed spec fn spec_pending_size(&self) -> int {
        self.current_block.spec_estimated_size()
    }

    /// The finalized parts form a sound partial SST, the in-flight block is
    /// sound, and together they hold exactly the added entries in strictly
    /// increasing key order.
    closed spec fn wf0(&self) -> bool {
        let metas = views_of_metas(self.meta@);
        let data = self.data@;
        let mo = data.len() as int;
        &&& self.block_size <= 0xffff
        &&& self.current_block.wf()
        &&& self.current_block.spec_block_size() == self.block_size as int
        &&& sst_index_wf(data.len() as int, metas, mo)
        &&& metas.len() == 0 ==> data.len() == 0
        &&& forall|i: int| 0 <= i < metas.len() ==> sst_block_ok(data, metas, mo, i)
        &&& self.added@ == sst_entries_from(data, metas, mo, 0) + self.current_block.entries()
        &&& entries_sorted(self.added@)
        &&& entries_keys_nonempty(self.added@)
        &&& self.current_block.entries().len() > 0 ==> self.first_key@
            == self.current_block.entries()[0].0
        &&& self.current_block.entries().len() > 0 ==> forall|i: int|
            0 <= i < metas.len() ==> lex_lt(
                (#[trigger] metas[i]).first_key,
                self.current_block.entries()[0].0,
            )
        &&& data.len() <= 0xffff_ffff
    }

    /// Builder invariant. Between adds the in-flight block is never empty
    /// once something has been added: a finalized block is always refilled.
    pub closed spec fn wf(&self) -> bool {
        &&& self.wf0()
        &&& self.added@.len() > 0 ==> self.current_block.entries().len() > 0
    }

    /// Creates a builder that packs entries into blocks of the given target
    /// size. The target must fit the 16-bit offsets of the block format.
    pub fn new(block_size: usize) -> (r: SsTableBuilder)
        requires
            block_size <= 0xffff,
        ensures
            r.wf(),
            r.spec_added() == Seq::<(Seq<u8>, Seq<u8>)>::empty(),
            r.spec_block_size() == block_size,
            r.spec_data_size() == 0,
            r.spec_metas() == Seq::<BlockMetaView>::empty(),
            r.spec_pending() == Seq::<(Seq<u8>, Seq<u8>)>::empty(),
            r.spec_pending_size() == 2,
    {
        let r = SsTableBuilder {
            meta: Vec::new(),
            data: Vec::new(),
            block_size,
            current_block: BlockBuilder::new(block_size),
            first_key: Vec::new(),
            added: Ghost(Seq::empty()),
        };
        proof {
            assert(views_of_metas(r.meta@) =~= Seq::<BlockMetaView>::empty());
            assert(sst_entries_from(r.data@, views_of_metas(r.meta@), 0, 0) =~= Seq::<(
                Seq<u8>,
                Seq<u8>,
            )>::empty());
            assert(r.added@ =~= sst_entries_from(r.data@, views_of_metas(r.meta@), 0, 0)
                + r.current_block.entries());
        }
        r
    }

    /// Flushes the in-flight block: records its index entry, appends its
    /// encoded bytes, and starts a fresh block.
    #[verifier::rlimit(100)]
    fn finalize_block(&mut self)
        requires
            old(self).wf(),
            old(self).current_block.entries().len() > 0,
            old(self).spec_data_size() + 0x40000 <= 0xffff_ffff,
        ensures
            final(self).wf0(),
            final(self).spec_added() == old(self).spec_added(),
            final(self).spec_block_size() == old(self).spec_block_size(),
            final(self).current_block.entries().len() == 0,
            final(self).spec_data_size() <= old(self).spec_data_size() + 0x40000,
            final(self).spec_data_size() == old(self).spec_data_size() + old(
                self,
            ).spec_pending_size() + 8,
            views_of_metas(final(self).meta@).len() > 0,
            final(self).spec_metas() == old(self).spec_metas().push(
                BlockMetaView {
                    offset: old(self).spec_data_size(),
                    first_key: old(self).spec_pending()[0].0,
                },
            ),
    {
        let ghost old_metas = views_of_metas(self.meta@);
        let ghost old_data = self.data@;
        let ghost old_flat = sst_entries_from(old_data, old_metas, old_data.len() as int, 0);
        let ghost bv = self.current_block.contents();

        let mut fresh = BlockBuilder::new(self.block_size);
        core::mem::swap(&mut self.current_block, &mut fresh);
        proof {
            // The cross-block bound: everything already flushed precedes the
            // first key of this block, and the block's own last entry
            // precedes nothing yet to come.
            if old_metas.len() > 0 {
                lemma_sst_entries_last(old_data, old_metas, old_data.len() as int, 0);
                let prev_last = old_flat.last();
                let cur0 = block_entries(bv)[0];
                assert(prev_last == self.added@[old_flat.len() - 1]);
                assert(cur0 == self.added@[old_flat.len() as int]);
                assert(lex_lt(prev_last.0, cur0.0));
            }
            lemma_finalized_block(old_data, old_metas, bv);
        }
        let block = fresh.build();
        let encoded = block.encode();
        let mut fk: Vec<u8> = Vec::new();
        core::mem::swap(&mut self.first_key, &mut fk);
        let offset = self.data.len();
        self.meta.push(BlockMeta { offset, first_key: fk });
        append_bytes(&mut self.data, encoded.as_slice());
        proof {
            let metas2 = views_of_metas(self.meta@);
            assert(metas2 =~= old_metas.push(
                BlockMetaView { offset: old_data.len() as int, first_key: block_entries(bv)[0].0 },
            ));
            assert(self.data@ == old_data + spec_block_encode(bv));
            assert(self.added@ =~= sst_entries_from(
                self.data@,
                metas2,
                self.data@.len() as int,
                0,
            ) + self.current_block.entries());
            lemma_offsets_to_bytes_len(bv.offsets);
            // The encoded block is bounded: its data section is either within
            // the target or a single entry of two 16-bit-length fields.
            assert(bv.offsets.len() >= 2 ==> bv.data.len() + 2 * bv.offsets.len() + 2
                <= self.block_size as int);
            if bv.offsets.len() == 1 {
                assert(crate::block::entry_wf_at(bv.data, bv.offsets, 0));
                assert(bv.data.len() <= 4 + 0xffff + 0xffff);
            }
        }
    }

    /// Adds a key-value pair. Keys are non-empty, fit the 16-bit length
    /// fields, and arrive in strictly increasing order; the data section
    /// stays within the 32-bit meta offset. When the in-flight block is
    /// full it is finalized and a fresh block takes the entry.
    pub fn add(&mut self, key: &[u8], value: &[u8])
        requires
            old(self).wf(),
            key@.len() > 0,
            key@.len() <= 0xffff,
            value@.len() <= 0xffff,
            old(self).spec_added().len() > 0 ==> lex_lt(old(self).spec_added().last().0, key@),
            old(self).spec_data_size() + 0x80000 <= 0xffff_ffff,
        ensures
            final(self).wf(),
            final(self).spec_added() == old(self).spec_added().push((key@, value@)),
            final(self).spec_block_size() == old(self).spec_block_size(),
            final(self).spec_data_size() <= old(self).spec_data_size() + 0x40000,
            ({
                // The block partition: the entry joins the in-flight block
                // when it fits (the first always does); otherwise that block
                // is finalized, its record appended, and a fresh block takes
                // the entry.
                let fits = old(self).spec_pending().len() == 0 || old(self).spec_pending_size()
                    + key@.len() + value@.len() + 6 <= old(self).spec_block_size();
                &&& fits ==> final(self).spec_pending() == old(self).spec_pending().push(
                    (key@, value@),
                ) && final(self).spec_metas() == old(self).spec_metas()
                    && final(self).spec_data_size() == old(self).spec_data_size()
                &&& !fits ==> final(self).spec_pending() == seq![(key@, value@)]
                    && final(self).spec_data_size() == old(self).spec_data_size() + old(
                    self,
                ).spec_pending_size() + 8 && final(self).spec_metas() == old(
                    self,
                ).spec_metas().push(
                    BlockMetaView {
                        offset: old(self).spec_data_size(),
                        first_key: old(self).spec_pending()[0].0,
                    },
                )
                &&& final(self).spec_pending_size() == (if fits {
                    old(self).spec_pending_size()
                } else {
                    2
                }) + key@.len() + value@.len() + 6
            }),
    {
        if self.current_block.is_empty() {
            self.first_key = slice_to_vec(key);
        }
        proof {
            if self.current_block.entries().len() > 0 {
                assert(self.current_block.entries().last() == self.added@.last());
            }
        }
        let accepted = self.current_block.add(key, value);
        if accepted {
            proof {
                self.added@ = self.added@.push((key@, value@));
                assert(self.added@ =~= sst_entries_from(
                    self.data@,
                    views_of_metas(self.meta@),
                    self.data@.len() as int,
                    0,
                ) + self.current_block.entries());
                lemma_sorted_push(old(self).spec_added(), (key@, value@));
                if old(self).current_block.entries().len() == 0 {
                    assert(self.first_key@ == self.current_block.entries()[0].0);
                    // No finalized block exists while the in-flight block is
                    // empty: a finalized block would put entries before it.
                    if views_of_metas(self.meta@).len() > 0 {
                        lemma_sst_entries_last(
                            self.data@,
                            views_of_metas(self.meta@),
                            self.data@.len() as int,
                            0,
                        );
                        assert(old(self).spec_added().len() > 0);
                        assert(false);
                    }
                }
            }
            return ;
        }
        self.finalize_block();
        let accepted_now = self.current_block.add(key, value);
        proof {
            assert(accepted_now);
            assert(self.spec_pending() =~= seq![(key@, value@)]);
            self.added@ = self.added@.push((key@, value@));
            assert(self.added@ =~= sst_entries_from(
                self.data@,
                views_of_metas(self.meta@),
                self.data@.len() as int,
                0,
            ) + self.current_block.entries());
            lemma_sorted_push(old(self).spec_added(), (key@, value@));
        }
        self.first_key = slice_to_vec(key);
        proof {
            let metas = views_of_metas(self.meta@);
            assert forall|i: int| 0 <= i < metas.len() implies lex_lt(
                (#[trigger] metas[i]).first_key,
                self.current_block.entries()[0].0,
            ) by {
                // Each recorded first key is an added entry's key, which
                // precedes the newly added key.
                let flat = sst_entries_from(self.data@, metas, self.data@.len() as int, 0);
                assert(flat =~= old(self).spec_added());
                lemma_first_key_in_entries(self.data@, metas, self.data@.len() as int, i);
                let k = choose|k: int|
                    0 <= k < flat.len() && flat[k].0 == metas[i].first_key;
                assert(flat[k] == old(self).spec_added()[k]);
                assert(lex_lt(old(self).spec_added()[k].0, old(self).spec_added().last().0)
                    || old(self).spec_added()[k].0 == old(self).spec_added().last().0);
                if old(self).spec_added()[k].0 == old(self).spec_added().last().0 {
                    assert(lex_lt(metas[i].first_key, key@));
                } else {
                    lemma_lex_lt_transitive(
                        metas[i].first_key,
                        old(self).spec_added().last().0,
                        key@,
                    );
                }
            }
        }
    }

    /// The in-flight block never measures below its base size: the count
    /// field alone is two bytes.
    pub proof fn lemma_pending_floor(&self)
        requires
            self.wf(),
        ensures
            self.spec_pending_size() >= 2,
    {
    }

    /// The byte length of the finalized data section — the dominant part of
    /// the eventual file size.
    pub fn estimated_size(&self) -> (r: usize)
        ensures
            r == self.spec_data_size(),
    {
        self.data.len()
    }

    /// Finalizes the in-flight block and emits the complete SST image:
    /// blocks, meta section with its checksum, and the trailing meta offset.
    /// The resulting table holds exactly the added entries, in order.
    #[verifier::rlimit(100)]
    pub fn build(self) -> (r: SsTable)
        requires
            self.wf(),
            self.spec_added().len() > 0,
            self.spec_data_size() + 0x40000 <= 0xffff_ffff,
        ensures
            r.data_wf(),
            r.sst_entries() == self.spec_added(),
            crate::table::spec_sst_open(r.spec_file()) == Some(
                (r.spec_metas(), r.spec_meta_offset()),
            ),
            r.spec_metas() == self.spec_metas().push(
                BlockMetaView {
                    offset: self.spec_data_size(),
                    first_key: self.spec_pending()[0].0,
                },
            ),
    {
        let mut this = self;
        proof {
            if this.current_block.entries().len() == 0 {
                assert(views_of_metas(this.meta@).len() == 0);
                assert(sst_entries_from(
                    this.data@,
                    views_of_metas(this.meta@),
                    this.data@.len() as int,
                    0,
                ) =~= Seq::<(Seq<u8>, Seq<u8>)>::empty());
                assert(this.added@.len() == 0);
            }
        }
        this.finalize_block();
        let ghost metas = views_of_metas(this.meta@);
        let ghost data = this.data@;
        let ghost mo = data.len() as int;
        let meta_offset = this.data.len();
        let mut buf = this.data;
        BlockMeta::encode_block_meta(this.meta.as_slice(), &mut buf);
        push_u32_be(&mut buf, meta_offset as u32);
        proof {
            assert(buf@.subrange(0, mo) =~= data);
            lemma_build_transfer(data, metas, buf@);
        }
        let file = FileObject::create(buf);
        let table = SsTable::from_parts(file, this.meta, meta_offset);
        proof {
            let v = SsTableView { file: buf@, metas, meta_offset: mo };
            assert(table@ =~= v);
            assert(table.sst_entries() == sst_entries_from(data, metas, mo, 0));
            // The emitted image reopens to the same index: the trailer reads
            // back as the meta offset, and the meta section decodes to the
            // same records.
            let file = buf@;
            let flen = file.len() as int;
            assert(file == data + spec_encode_metas(metas) + crate::endian::spec_u32_to_be_bytes(
                meta_offset as u32,
            ));
            assert(file.subrange(flen - 4, flen) =~= crate::endian::spec_u32_to_be_bytes(
                meta_offset as u32,
            ));
            crate::endian::lemma_u32_be_round_trip(meta_offset as u32);
            assert(file.subrange(mo, flen - 4) =~= spec_encode_metas(metas));
            assert(forall|i: int| 0 <= i < metas.len() ==> meta_encodable(#[trigger] metas[i]));
            crate::table::lemma_metas_round_trip(metas);
        }
        table
    }
}

/// Wrapping the finalized data section into a full image — meta section and
/// trailer appended — yields a sound table holding the same entries.
#[verifier::rlimit(100)]
proof fn lemma_build_transfer(data: Seq<u8>, metas: Seq<BlockMetaView>, file2: Seq<u8>)
    requires
        sst_index_wf(data.len() as int, metas, data.len() as int),
        forall|i: int| 0 <= i < metas.len() ==> sst_block_ok(data, metas, data.len() as int, i),
        metas.len() > 0,
        file2.len() >= data.len(),
        file2.subrange(0, data.len() as int) == data,
    ensures
        view_data_wf(SsTableView { file: file2, metas, meta_offset: data.len() as int }),
        view_entries_from(
            SsTableView { file: file2, metas, meta_offset: data.len() as int },
            0,
        ) == sst_entries_from(data, metas, data.len() as int, 0),
{
    let mo = data.len() as int;
    assert(data.subrange(0, mo) =~= data);
    lemma_sst_parts_stable(data, file2, metas, mo, 0);
    let v = SsTableView { file: file2, metas, meta_offset: mo };
    assert forall|i: int| 0 <= i < metas.len() implies #[trigger] view_block_ok(v, i) by {
        assert(sst_block_ok(data, metas, mo, i));
        assert(sst_region(file2, metas, mo, i) == sst_region(data, metas, mo, i));
    }
}

/// Pushing an entry whose key exceeds the last keeps the sequence sorted
/// with non-empty keys.
proof fn lemma_sorted_push(entries: Seq<(Seq<u8>, Seq<u8>)>, e: (Seq<u8>, Seq<u8>))
    requires
        entries_sorted(entries),
        entries_keys_nonempty(entries),
        e.0.len() > 0,
        entries.len() > 0 ==> lex_lt(entries.last().0, e.0),
    ensures
        entries_sorted(entries.push(e)),
        entries_keys_nonempty(entries.push(e)),
{
    let entries2 = entries.push(e);
    assert forall|i: int, j: int| 0 <= i < j < entries2.len() implies lex_lt(
        #[trigger] entries2[i].0,
        #[trigger] entries2[j].0,
    ) by {
        if j < entries2.len() - 1 {
            assert(lex_lt(entries[i].0, entries[j].0));
        } else {
            if i < entries2.len() - 2 {
                assert(lex_lt(entries[i].0, entries.last().0));
                lemma_lex_lt_transitive(entries[i].0, entries.last().0, e.0);
            }
        }
    }
    assert forall|i: int| 0 <= i < entries2.len() implies (#[trigger] entries2[i]).0.len()
        > 0 by {
        if i < entries2.len() - 1 {
            assert(entries[i].0.len() > 0);
        }
    }
}

/// Every recorded first key occurs as a key in the parts' entry sequence.
proof fn lemma_first_key_in_entries(
    data: Seq<u8>,
    metas: Seq<BlockMetaView>,
    mo: int,
    i: int,
)
    requires
        forall|j: int| 0 <= j < metas.len() ==> sst_block_ok(data, metas, mo, j),
        0 <= i < metas.len(),
    ensures
        exists|k: int|
            0 <= k < sst_entries_from(data, metas, mo, 0).len() && sst_entries_from(
                data,
                metas,
                mo,
                0,
            )[k].0 == metas[i].first_key,
{
    lemma_first_key_in_entries_from(data, metas, mo, 0, i);
}

proof fn lemma_first_key_in_entries_from(
    data: Seq<u8>,
    metas: Seq<BlockMetaView>,
    mo: int,
    b: int,
    i: int,
)
    requires
        forall|j: int| 0 <= j < metas.len() ==> sst_block_ok(data, metas, mo, j),
        0 <= b <= i < metas.len(),
    ensures
        exists|k: int|
            0 <= k < sst_entries_from(data, metas, mo, b).len() && sst_entries_from(
                data,
                metas,
                mo,
                b,
            )[k].0 == metas[i].first_key,
    decreases metas.len() - b,
{
    assert(sst_block_ok(data, metas, mo, b));
    let entries = block_entries(sst_block_at(data, metas, mo, b)->Some_0);
    assert(entries.len() > 0) by {
        assert(wf_block(sst_block_at(data, metas, mo, b)->Some_0));
    }
    let whole = sst_entries_from(data, metas, mo, b);
    if b == i {
        assert(whole[0] == entries[0]);
        assert(whole[0].0 == metas[i].first_key);
    } else {
        lemma_first_key_in_entries_from(data, metas, mo, b + 1, i);
        let rest = sst_entries_from(data, metas, mo, b + 1);
        let k = choose|k: int| 0 <= k < rest.len() && rest[k].0 == metas[i].first_key;
        assert(whole[entries.len() + k] == rest[k]);
    }
}

} // verus!
