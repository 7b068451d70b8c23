use angsd_io::saf::index::{Entry, Index};
use angsd_io::saf::read::{PositionReader, Reader, ValueReader};
use angsd_io::saf::write::{BinaryWrite, PositionWriter, ValueWriter};
use angsd_io::SafError;

fn dataset(
    alleles_stored: u64,
    entries: &[(&str, usize)],
    positions: &[u32],
    value_chunks: &[&[f32]],
) -> Reader {
    let entries: Vec<Entry> = entries
        .iter()
        .map(|(name, n)| Entry::new(name.to_string(), *n, 0, 0))
        .collect();
    let index = Index::new(alleles_stored as usize + 1, entries);
    let mut pw = PositionWriter::new(Vec::new());
    pw.write_header();
    pw.write_all(positions);
    let pos_src = pw.finish().unwrap();
    let mut vw = ValueWriter::new(Vec::new());
    vw.write_header();
    for chunk in value_chunks {
        let words: Vec<u32> = chunk.iter().map(|v| v.to_bits()).collect();
        vw.write_all(&words);
    }
    let val_src = vw.finish().unwrap();
    let mut reader = Reader::new(
        index,
        PositionReader::new(&pos_src[..]).unwrap(),
        ValueReader::new(&val_src[..]).unwrap(),
    );
    assert_eq!(reader.read_header().unwrap(), "safv3");
    reader
}

#[test]
fn sequencer_scenario_two_contigs() {
    let reader = dataset(
        0,
        &[("chr1", 2), ("chr2", 1)],
        &[10, 20, 5],
        &[&[0.1], &[0.2], &[0.3]],
    );
    let mut sites = reader.sites();
    assert_eq!(sites.len(), 3);
    let s = sites.next().unwrap().unwrap();
    assert_eq!((s.name(), s.position()), ("chr1", 10));
    assert_eq!(f32::from_bits(s.values()[0]), 0.1);
    let s = sites.next().unwrap().unwrap();
    assert_eq!((s.name(), s.position()), ("chr1", 20));
    assert_eq!(f32::from_bits(s.values()[0]), 0.2);
    let s = sites.next().unwrap().unwrap();
    assert_eq!((s.name(), s.position()), ("chr2", 5));
    assert_eq!(f32::from_bits(s.values()[0]), 0.3);
    assert!(sites.next().is_none());
    assert!(sites.next().is_none());
}

#[test]
fn sequencer_yields_index_site_count() {
    let reader = dataset(
        1,
        &[("chr1", 2), ("chr2", 2)],
        &[1, 2, 3, 4],
        &[&[0.1, 0.2], &[0.3, 0.4], &[0.5, 0.6], &[0.7, 0.8]],
    );
    let n_sites = reader.index().n_sites();
    let mut sites = reader.sites();
    let mut count = 0usize;
    while let Some(site) = sites.next() {
        site.unwrap();
        count += 1;
    }
    assert_eq!(count, n_sites);
}

#[test]
fn truncated_value_stream_gives_one_error_then_ends() {
    // Three sites in the index and position stream, but only two value
    // chunks.
    let reader = dataset(
        0,
        &[("chr1", 3)],
        &[1, 2, 3],
        &[&[0.1], &[0.2]],
    );
    let mut sites = reader.sites();
    assert!(sites.next().unwrap().is_ok());
    assert!(sites.next().unwrap().is_ok());
    assert_eq!(sites.next().unwrap().err(), Some(SafError::IncompatibleLengths));
    assert!(sites.next().is_none());
    assert!(sites.next().is_none());
}

#[test]
fn truncated_position_stream_gives_one_error_then_ends() {
    // Three sites, but the position stream ends inside the third record.
    let entries = vec![Entry::new("chr1".to_string(), 3, 0, 0)];
    let index = Index::new(1, entries);
    let mut raw: Vec<u8> = Vec::new();
    raw.extend_from_slice(b"safv3\0\0\0");
    raw.extend_from_slice(&1u32.to_le_bytes());
    raw.extend_from_slice(&2u32.to_le_bytes());
    raw.extend_from_slice(&[0x03, 0x00]); // half a record
    let mut w = noodles_bgzf::io::Writer::new(Vec::new());
    std::io::Write::write_all(&mut w, &raw).unwrap();
    let pos_src = w.finish().unwrap();
    let mut vw = ValueWriter::new(Vec::new());
    vw.write_header();
    vw.write_all(&[0.5f32.to_bits(), 0.6f32.to_bits(), 0.7f32.to_bits()]);
    let val_src = vw.finish().unwrap();
    let mut reader = Reader::new(
        index,
        PositionReader::new(&pos_src[..]).unwrap(),
        ValueReader::new(&val_src[..]).unwrap(),
    );
    assert_eq!(reader.read_header().unwrap(), "safv3");
    let mut sites = reader.sites();
    assert!(sites.next().unwrap().is_ok());
    assert!(sites.next().unwrap().is_ok());
    assert_eq!(sites.next().unwrap().err(), Some(SafError::Truncated));
    assert!(sites.next().is_none());
}

#[test]
fn empty_dataset_ends_immediately() {
    let reader = dataset(0, &[], &[], &[]);
    let mut sites = reader.sites();
    assert!(sites.next().is_none());
}
