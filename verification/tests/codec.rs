use angsd_io::saf::index::{Entry, Index};
use angsd_io::saf::read::{BinaryRead, PositionReader, ValueReader};
use angsd_io::saf::write::{BinaryWrite, PositionWriter, ValueWriter};
use angsd_io::SafError;

fn index_bytes(alleles_stored: u64, entries: &[(&str, u64, u64, u64)]) -> Vec<u8> {
    let mut out = Vec::new();
    out.extend_from_slice(b"safv3\0\0\0");
    out.extend_from_slice(&alleles_stored.to_le_bytes());
    for (name, n_sites, po, vo) in entries {
        out.extend_from_slice(&(name.len() as u64).to_le_bytes());
        out.extend_from_slice(name.as_bytes());
        out.extend_from_slice(&n_sites.to_le_bytes());
        out.extend_from_slice(&po.to_le_bytes());
        out.extend_from_slice(&vo.to_le_bytes());
    }
    out
}

#[test]
fn position_writer_write_from_slice() {
    let mut writer = PositionWriter::new(Vec::new());
    writer.write_header();
    let positions: Vec<u32> = vec![0, 32, 89];
    writer.write_all(&positions);
    let src = writer.finish().unwrap();
    let mut reader = PositionReader::new(&src[..]).unwrap();
    assert_eq!("safv3", reader.read_header().unwrap());
    for position in positions {
        assert_eq!(reader.read().unwrap(), Some(position));
    }
    assert_eq!(reader.read().unwrap(), None);
}

#[test]
fn value_writer_write_from_slice() {
    let mut writer = ValueWriter::new(Vec::new());
    writer.write_header();
    let values: Vec<f32> = vec![0.0, 0.32, 0.89];
    let words: Vec<u32> = values.iter().map(|v| v.to_bits()).collect();
    writer.write_all(&words);
    let src = writer.finish().unwrap();
    let mut reader = ValueReader::new(&src[..]).unwrap();
    assert_eq!("safv3", reader.read_header().unwrap());
    for value in values {
        assert_eq!(f32::from_bits(reader.read().unwrap().unwrap()), value);
    }
    assert_eq!(reader.read().unwrap(), None);
}

#[test]
fn finish_appends_to_sink() {
    let mut writer = PositionWriter::new(vec![7u8, 8u8]);
    writer.write_header();
    writer.write(5);
    let out = writer.finish().unwrap();
    assert_eq!(&out[..2], &[7u8, 8u8]);
}

#[test]
fn read_exact_returns_requested_chunk() {
    let mut writer = ValueWriter::new(Vec::new());
    writer.write_header();
    writer.write_all(&[1u32, 2, 3, 4, 5, 6]);
    let src = writer.finish().unwrap();
    let mut reader = ValueReader::new(&src[..]).unwrap();
    reader.read_header().unwrap();
    assert_eq!(reader.read_exact(3).unwrap(), Some(vec![1, 2, 3]));
    assert_eq!(reader.read_exact(3).unwrap(), Some(vec![4, 5, 6]));
    assert_eq!(reader.read_exact(3).unwrap(), None);
}

#[test]
fn read_exact_inside_data_is_an_error() {
    let mut writer = ValueWriter::new(Vec::new());
    writer.write_header();
    writer.write_all(&[1u32, 2]);
    let src = writer.finish().unwrap();
    let mut reader = ValueReader::new(&src[..]).unwrap();
    reader.read_header().unwrap();
    assert_eq!(reader.read_exact(3), Err(SafError::Truncated));
}

#[test]
fn header_rejection_positions() {
    let mut writer = PositionWriter::new(Vec::new());
    writer.write_all(&[0x33667361, 99]); // starts with other bytes, not the tag
    let src = writer.finish().unwrap();
    let mut reader = PositionReader::new(&src[..]).unwrap();
    assert_eq!(reader.read_header(), Err(SafError::InvalidMagic));
}

#[test]
fn header_rejection_values() {
    let mut writer = ValueWriter::new(Vec::new());
    writer.write_all(&[1, 2, 3, 4]);
    let src = writer.finish().unwrap();
    let mut reader = ValueReader::new(&src[..]).unwrap();
    assert_eq!(reader.read_header(), Err(SafError::InvalidMagic));
}

#[test]
fn header_rejection_index() {
    let mut bytes = index_bytes(0, &[("chr1", 1, 0, 0)]);
    bytes[4] = b'2'; // "safv2..." is not the tag
    let reader = angsd_io::saf::index::reader::Reader::new(bytes);
    assert_eq!(reader.read_index(), Err(SafError::InvalidMagic));
}

#[test]
fn header_rejection_short_stream() {
    let mut writer = PositionWriter::new(Vec::new());
    writer.write(1);
    let src = writer.finish().unwrap();
    let mut reader = PositionReader::new(&src[..]).unwrap();
    assert_eq!(reader.read_header(), Err(SafError::Truncated));
}

#[test]
fn bad_compression_is_rejected() {
    assert_eq!(
        PositionReader::new(&[1u8, 2, 3, 4][..]).err(),
        Some(SafError::BadCompression)
    );
}

#[test]
fn read_index_decodes_entries() {
    let bytes = index_bytes(2, &[("chr1", 5, 10, 20), ("chr22", 7, 30, 40)]);
    let index = Index::from_reader(angsd_io::saf::index::reader::Reader::new(bytes)).unwrap();
    assert_eq!(index.n_alleles(), 3);
    assert_eq!(index.n_sites(), 12);
    assert_eq!(index.entries().len(), 2);
    assert_eq!(index.entries()[0].name(), "chr1");
    assert_eq!(index.entries()[0].n_sites(), 5);
    assert_eq!(index.entries()[1].name(), "chr22");
    assert_eq!(index.entries()[1].n_sites(), 7);
    assert_eq!(index.names(), vec!["chr1", "chr22"]);
}

#[test]
fn index_round_trip() {
    let entries = vec![
        Entry::new(String::from("chr1"), 5, 11, 21),
        Entry::new(String::from("contig_two"), 0, 31, 41),
    ];
    let index = Index::new(4, entries);
    let bytes = angsd_io::saf::index::writer::write_index(&index);
    let back = Index::from_reader(angsd_io::saf::index::reader::Reader::new(bytes)).unwrap();
    assert_eq!(back, index);
}

#[test]
fn read_index_rejects_bad_name() {
    let mut bytes = index_bytes(0, &[("chr1", 1, 0, 0)]);
    // Overwrite the first name byte with an invalid UTF-8 byte.
    bytes[24] = 0xff;
    let reader = angsd_io::saf::index::reader::Reader::new(bytes);
    assert_eq!(reader.read_index(), Err(SafError::InvalidName));
}

#[test]
fn read_index_rejects_partial_entry() {
    let mut bytes = index_bytes(0, &[("chr1", 1, 0, 0)]);
    bytes.truncate(bytes.len() - 3);
    let reader = angsd_io::saf::index::reader::Reader::new(bytes);
    assert_eq!(reader.read_index(), Err(SafError::Truncated));
}

#[test]
fn empty_entry_list_is_valid() {
    let bytes = index_bytes(0, &[]);
    let index = Index::from_reader(angsd_io::saf::index::reader::Reader::new(bytes)).unwrap();
    assert_eq!(index.n_alleles(), 1);
    assert_eq!(index.n_sites(), 0);
    assert!(index.entries().is_empty());
}

#[test]
fn parse_magic_trims_padding() {
    let magic = [0x73, 0x61, 0x66, 0x76, 0x33, 0x00, 0x00, 0x00];
    assert_eq!(angsd_io::utils::parse_magic(&magic).unwrap(), "safv3");
}

#[test]
fn read_magic_checks_prefix() {
    let expected = [0x73, 0x61, 0x66, 0x76, 0x33, 0x00, 0x00, 0x00];
    assert!(angsd_io::utils::read_magic(b"safv3\0\0\0extra", &expected).is_ok());
    assert_eq!(
        angsd_io::utils::read_magic(b"safv4\0\0\0", &expected),
        Err(SafError::InvalidMagic)
    );
    assert_eq!(
        angsd_io::utils::read_magic(b"saf", &expected),
        Err(SafError::Truncated)
    );
}

#[test]
fn iter_names_expands_entries() {
    let entries = vec![
        Entry::new(String::from("chr1"), 3, 0, 0),
        Entry::new(String::from("chr2"), 0, 0, 0),
        Entry::new(String::from("chr3"), 1, 0, 0),
    ];
    let index = Index::new(1, entries);
    let mut names = index.iter_names();
    let mut seen = Vec::new();
    while let Some(name) = names.next() {
        seen.push(name);
    }
    assert_eq!(seen, vec!["chr1", "chr1", "chr1", "chr3"]);
}

#[test]
fn index_accessors_and_mutation() {
    let entries = vec![
        Entry::new(String::from("chr1"), 2, 0, 0),
        Entry::new(String::from("chr2"), 3, 0, 0),
    ];
    let mut index = Index::new(2, entries);
    assert_eq!(index.n_alleles(), 2);
    assert_eq!(index.n_sites(), 5);
    index.entries_mut()[0] = Entry::new(String::from("chr9"), 4, 1, 2);
    assert_eq!(index.n_sites(), 7);
    let entries = index.into_entries();
    assert_eq!(entries[0].name(), "chr9");
    assert_eq!(entries[1].name(), "chr2");
}

#[test]
fn site_accessors() {
    let mut site = angsd_io::saf::Site::new(String::from("chr1"), 9, vec![1, 2, 3]);
    assert_eq!(site.name(), "chr1");
    assert_eq!(site.position(), 9);
    assert_eq!(site.values(), &vec![1, 2, 3]);
    site.values_mut()[1] = 7;
    assert_eq!(site.into_values(), vec![1, 7, 3]);
}
