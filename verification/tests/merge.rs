use angsd_io::saf::index::{Entry, Index};
use angsd_io::saf::read::{MergedReader, PositionReader, Reader, ValueReader};
use angsd_io::saf::write::{BinaryWrite, PositionWriter, ValueWriter};
use angsd_io::saf::Site;

fn dataset(
    alleles_stored: u64,
    entries: &[(&str, usize)],
    positions: &[u32],
    value_chunks: &[&[f32]],
) -> Reader {
    let entries: Vec<Entry> = entries
        .iter()
        .map(|(name, n)| Entry::new(name.to_string(), *n, 0, 0))
        .collect();
    let index = Index::new(alleles_stored as usize + 1, entries);
    let mut pw = PositionWriter::new(Vec::new());
    pw.write_header();
    pw.write_all(positions);
    let pos_src = pw.finish().unwrap();
    let mut vw = ValueWriter::new(Vec::new());
    vw.write_header();
    for chunk in value_chunks {
        let words: Vec<u32> = chunk.iter().map(|v| v.to_bits()).collect();
        vw.write_all(&words);
    }
    let val_src = vw.finish().unwrap();
    let mut reader = Reader::new(
        index,
        PositionReader::new(&pos_src[..]).unwrap(),
        ValueReader::new(&val_src[..]).unwrap(),
    );
    assert_eq!(reader.read_header().unwrap(), "safv3");
    reader
}

fn drain(mut merged: angsd_io::merge::MergedSites) -> Vec<Vec<Site>> {
    let mut out = Vec::new();
    while let Some(tuple) = merged.next() {
        out.push(tuple.unwrap());
    }
    out
}

#[test]
fn merge_intersects_positions() {
    let a = dataset(
        0,
        &[("chr1", 4)],
        &[1, 2, 3, 5],
        &[&[0.1], &[0.2], &[0.3], &[0.5]],
    );
    let b = dataset(
        0,
        &[("chr1", 3)],
        &[2, 3, 4],
        &[&[1.2], &[1.3], &[1.4]],
    );
    let merged = MergedReader::new(vec![a, b]);
    let tuples = drain(merged.iter());
    assert_eq!(tuples.len(), 2);
    assert_eq!(tuples[0].len(), 2);
    assert_eq!(tuples[0][0].position(), 2);
    assert_eq!(tuples[0][1].position(), 2);
    assert_eq!(f32::from_bits(tuples[0][0].values()[0]), 0.2);
    assert_eq!(f32::from_bits(tuples[0][1].values()[0]), 1.2);
    assert_eq!(tuples[1][0].position(), 3);
    assert_eq!(tuples[1][1].position(), 3);
    assert_eq!(f32::from_bits(tuples[1][0].values()[0]), 0.3);
    assert_eq!(f32::from_bits(tuples[1][1].values()[0]), 1.3);
}

#[test]
fn merge_excludes_contigs_outside_dictionary() {
    let a = dataset(
        0,
        &[("chr1", 2), ("chr2", 2)],
        &[5, 7, 5, 7],
        &[&[0.1], &[0.2], &[0.3], &[0.4]],
    );
    let b = dataset(
        0,
        &[("chr2", 2)],
        &[5, 7],
        &[&[1.1], &[1.2]],
    );
    let merged = MergedReader::new(vec![a, b]);
    let tuples = drain(merged.iter());
    assert_eq!(tuples.len(), 2);
    for tuple in &tuples {
        for site in tuple {
            assert_eq!(site.name(), "chr2");
        }
    }
    assert_eq!(tuples[0][0].position(), 5);
    assert_eq!(f32::from_bits(tuples[0][0].values()[0]), 0.3);
    assert_eq!(f32::from_bits(tuples[0][1].values()[0]), 1.1);
    assert_eq!(tuples[1][0].position(), 7);
}

#[test]
fn merge_with_empty_dataset_is_empty() {
    let a = dataset(0, &[("chr1", 2)], &[1, 2], &[&[0.1], &[0.2]]);
    let b = dataset(0, &[], &[], &[]);
    let merged = MergedReader::new(vec![a, b]);
    let tuples = drain(merged.iter());
    assert!(tuples.is_empty());
}

#[test]
fn merge_aligns_three_datasets() {
    let a = dataset(0, &[("chr1", 3)], &[1, 4, 9], &[&[0.1], &[0.4], &[0.9]]);
    let b = dataset(0, &[("chr1", 3)], &[2, 4, 9], &[&[1.2], &[1.4], &[1.9]]);
    let c = dataset(0, &[("chr1", 2)], &[4, 8], &[&[2.4], &[2.8]]);
    let merged = MergedReader::new(vec![a, b, c]);
    let tuples = drain(merged.iter());
    assert_eq!(tuples.len(), 1);
    assert_eq!(tuples[0].len(), 3);
    for site in &tuples[0] {
        assert_eq!((site.name(), site.position()), ("chr1", 4));
    }
}

#[test]
fn merged_reader_reads_headers() {
    // Build a reader without consuming its headers, then check them through
    // the merged surface.
    let mut pw = PositionWriter::new(Vec::new());
    pw.write_header();
    pw.write(1);
    let pos_src = pw.finish().unwrap();
    let mut vw = ValueWriter::new(Vec::new());
    vw.write_header();
    vw.write(1.1f32.to_bits());
    let val_src = vw.finish().unwrap();
    let fresh = Reader::new(
        Index::new(1, vec![Entry::new("chr1".to_string(), 1, 0, 0)]),
        PositionReader::new(&pos_src[..]).unwrap(),
        ValueReader::new(&val_src[..]).unwrap(),
    );
    let mut merged = MergedReader::new(vec![fresh]);
    assert_eq!(merged.read_headers().unwrap(), "safv3");
    assert_eq!(merged.n_alleles(), vec![1]);
}

#[test]
fn sites_compare_by_location() {
    let x = Site::new("chr1".to_string(), 5, vec![0]);
    let y = Site::new("chr1".to_string(), 5, vec![9]);
    let z = Site::new("chr2".to_string(), 5, vec![0]);
    assert!(x.same_location(&y));
    assert!(!x.same_location(&z));
}

#[test]
fn merge_skips_unshared_contig_during_catch_up() {
    // The middle contig of the first dataset is absent from the second, so
    // the dictionary does not list it; catch-up must discard its site and
    // still reach the shared site after it.
    let a = dataset(
        0,
        &[("chr1", 1), ("chrX", 1), ("chr2", 1)],
        &[5, 1, 3],
        &[&[0.5], &[0.1], &[0.3]],
    );
    let b = dataset(0, &[("chr1", 1), ("chr2", 1)], &[7, 3], &[&[1.7], &[1.3]]);
    let merged = MergedReader::new(vec![a, b]);
    let tuples = drain(merged.iter());
    assert_eq!(tuples.len(), 1);
    assert_eq!((tuples[0][0].name(), tuples[0][0].position()), ("chr2", 3));
    assert_eq!((tuples[0][1].name(), tuples[0][1].position()), ("chr2", 3));
    assert_eq!(f32::from_bits(tuples[0][0].values()[0]), 0.3);
    assert_eq!(f32::from_bits(tuples[0][1].values()[0]), 1.3);
}
