use vstd::bytes::{lemma_auto_spec_u64_to_from_le_bytes, spec_u64_to_le_bytes, u64_to_le_bytes};
use vstd::prelude::*;
use vstd::slice::slice_to_vec;
use vstd::utf8::{encode_utf8, encode_utf8_decode_utf8, encode_utf8_valid_utf8};

use crate::saf::index::reader::{
    entry_head_len, entry_head_wf, spec_entry_at, spec_parse_entries, spec_parse_index,
};
use crate::saf::index::{entry_model, index_model, Entry, EntryModel, Index, IndexModel};
use crate::saf::constants::{saf_magic, spec_saf_magic};

verus! {

/// The bytes of one contig record: a 64-bit length, the UTF-8 name, then the
/// site count and the two stream offsets, every number little-endian.
pub open spec fn spec_encode_entry(em: EntryModel) -> Seq<u8> {
    spec_u64_to_le_bytes(encode_utf8(em.name).len() as u64) + encode_utf8(em.name)
        + spec_u64_to_le_bytes(em.n_sites) + spec_u64_to_le_bytes(em.position_offset)
        + spec_u64_to_le_bytes(em.value_offset)
}

/// The bytes of a record list: each record in turn, nothing between them.
pub open spec fn spec_encode_entries(entries: Seq<EntryModel>) -> Seq<u8>
    decreases entries.len(),
{
    if entries.len() == 0 {
        Seq::empty()
    } else {
        spec_encode_entry(entries.first()) + spec_encode_entries(entries.drop_first())
    }
}

/// The bytes of a whole index stream: the magic tag, the stored
/// allele-category count, then the records.
pub open spec fn spec_encode_index(m: IndexModel) -> Seq<u8> {
    spec_saf_magic() + spec_u64_to_le_bytes(m.alleles) + spec_encode_entries(m.entries)
}

/// True when every name is short enough for its byte length to be stored in
/// a 64-bit field. Every index held in memory satisfies this.
pub open spec fn index_encodable(m: IndexModel) -> bool {
    forall|i: int| 0 <= i < m.entries.len() ==> encode_utf8(
        (#[trigger] m.entries[i]).name,
    ).len() <= u64::MAX
}

proof fn lemma_encode_entries_take_succ(entries: Seq<EntryModel>, i: int)
    requires
        0 <= i < entries.len(),
    ensures
        spec_encode_entries(entries.take(i + 1)) == spec_encode_entries(entries.take(i))
            + spec_encode_entry(entries[i]),
    decreases i,
{
    if i == 0 {
        assert(entries.take(1).drop_first() =~= Seq::<EntryModel>::empty());
        assert(entries.take(0) =~= Seq::<EntryModel>::empty());
        assert(entries.take(1).first() == entries[0]);
        assert(spec_encode_entry(entries[0]) + Seq::<u8>::empty() =~= spec_encode_entry(
            entries[0],
        ));
        assert(Seq::<u8>::empty() + spec_encode_entry(entries[0]) =~= spec_encode_entry(
            entries[0],
        ));
    } else {
        let rest = entries.drop_first();
        assert(entries.take(i + 1).drop_first() =~= rest.take(i));
        assert(entries.take(i).drop_first() =~= rest.take(i - 1));
        assert(entries.take(i + 1).first() == entries.first());
        assert(entries.take(i).first() == entries.first());
        lemma_encode_entries_take_succ(rest, i - 1);
        assert(rest[i - 1] == entries[i]);
        assert(spec_encode_entry(entries.first()) + (spec_encode_entries(rest.take(i - 1))
            + spec_encode_entry(entries[i])) =~= (spec_encode_entry(entries.first())
            + spec_encode_entries(rest.take(i - 1))) + spec_encode_entry(entries[i]));
    }
}

/// Encodes an index to the on-disk byte layout.
#[verifier::loop_isolation(false)]
pub fn write_index(index: &Index) -> (r: Vec<u8>)
    requires
        index.n_alleles >= 1,
    ensures
        r@ == spec_encode_index(index_model(*index)),
{
    let ghost models = index.entries@.map_values(|e: Entry| entry_model(e));
    let mut out: Vec<u8> = Vec::new();
    let magic = saf_magic();
    let mut i: usize = 0;
    while i < 8
        invariant
            i <= 8,
            out@ =~= spec_saf_magic().take(i as int),
        decreases 8 - i,
    {
        out.push(magic[i]);
        assert(out@ =~= spec_saf_magic().take(i as int + 1));
        i += 1;
    }
    assert(out@ =~= spec_saf_magic());
    let mut alleles_bytes = u64_to_le_bytes((index.n_alleles - 1) as u64);
    out.append(&mut alleles_bytes);
    let ghost header = spec_saf_magic() + spec_u64_to_le_bytes(index_model(*index).alleles);
    assert(out@ =~= header);
    let mut j: usize = 0;
    assert(models.take(0) =~= Seq::<EntryModel>::empty());
    while j < index.entries.len()
        invariant
            j <= index.entries@.len(),
            out@ =~= header + spec_encode_entries(models.take(j as int)),
        decreases index.entries@.len() - j,
    {
        let e = &index.entries[j];
        let name_slice = e.name.as_str().as_bytes();
        let name_bytes = slice_to_vec(name_slice);
        let mut len_bytes = u64_to_le_bytes(name_bytes.len() as u64);
        out.append(&mut len_bytes);
        let mut name_bytes = name_bytes;
        out.append(&mut name_bytes);
        let mut sites_bytes = u64_to_le_bytes(e.n_sites as u64);
        out.append(&mut sites_bytes);
        let mut po_bytes = u64_to_le_bytes(e.position_offset);
        out.append(&mut po_bytes);
        let mut vo_bytes = u64_to_le_bytes(e.value_offset);
        out.append(&mut vo_bytes);
        proof {
            lemma_encode_entries_take_succ(models, j as int);
            assert(models[j as int] == entry_model(index.entries@[j as int]));
            assert(out@ =~= header + spec_encode_entries(models.take(j as int + 1)));
        }
        j += 1;
    }
    assert(models.take(index.entries@.len() as int) =~= models);
    assert(out@ =~= spec_encode_index(index_model(*index)));
    out
}

/// Decoding inverts encoding: a well-formed index model, written to bytes,
/// parses back to exactly itself.
pub proof fn lemma_parse_encode_entries(entries: Seq<EntryModel>)
    requires
        forall|i: int| 0 <= i < entries.len() ==> encode_utf8(
            (#[trigger] entries[i]).name,
        ).len() <= u64::MAX,
    ensures
        spec_parse_entries(spec_encode_entries(entries)) == Some(entries),
    decreases entries.len(),
{
    lemma_auto_spec_u64_to_from_le_bytes();
    if entries.len() == 0 {
        assert(spec_encode_entries(entries) =~= Seq::<u8>::empty());
        assert(Some(entries) == Some(Seq::<EntryModel>::empty()));
    } else {
        let e0 = entries.first();
        let rest = entries.drop_first();
        let eb = spec_encode_entry(e0);
        let b = spec_encode_entries(entries);
        let name_bytes = encode_utf8(e0.name);
        let nl = name_bytes.len() as int;
        assert(b =~= eb + spec_encode_entries(rest));
        assert(b.take(8) =~= spec_u64_to_le_bytes(nl as u64));
        assert(vstd::bytes::spec_u64_from_le_bytes(b.take(8)) == nl as u64);
        assert(b.len() == 32 + nl + spec_encode_entries(rest).len());
        assert(b.subrange(8, 8 + nl) =~= name_bytes);
        encode_utf8_valid_utf8(e0.name);
        assert(entry_head_wf(b));
        assert(entry_head_len(b) == 32 + nl);
        encode_utf8_decode_utf8(e0.name);
        assert(b.subrange(8 + nl, 16 + nl) =~= spec_u64_to_le_bytes(e0.n_sites));
        assert(b.subrange(16 + nl, 24 + nl) =~= spec_u64_to_le_bytes(e0.position_offset));
        assert(b.subrange(24 + nl, 32 + nl) =~= spec_u64_to_le_bytes(e0.value_offset));
        assert(spec_entry_at(b) == e0);
        assert(b.skip(32 + nl) =~= spec_encode_entries(rest));
        lemma_parse_encode_entries(rest);
        assert(seq![e0] + rest =~= entries);
    }
}

/// The index codec round trip: writing any index model whose names fit their
/// 64-bit length field, then parsing the bytes, returns the same model.
pub proof fn lemma_index_round_trip(m: IndexModel)
    requires
        index_encodable(m),
    ensures
        spec_parse_index(spec_encode_index(m)) == Some(m),
{
    lemma_auto_spec_u64_to_from_le_bytes();
    let b = spec_encode_index(m);
    assert(b.take(8) =~= spec_saf_magic());
    assert(b.subrange(8, 16) =~= spec_u64_to_le_bytes(m.alleles));
    assert(b.skip(16) =~= spec_encode_entries(m.entries));
    lemma_parse_encode_entries(m.entries);
    assert(spec_parse_index(b)->Some_0 == m);
}

} // verus!
