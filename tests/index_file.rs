use csv_index::address::Address;
use csv_index::bits::u64_to_u8s;
use csv_index::chunked_map::chunk_map;
use csv_index::csv_index::{CsvIndex, CsvIndexType};
use csv_index::csv_reader::CsvReader;
use csv_index::error::IndexError;
use csv_index::filter::{Filter, Operator};
use csv_index::range::Bound::{Excluded, Included, Unbounded};
use csv_index::sorted_map::SortedMap;
use csv_index::toc::{assemble_index, num_chunks, read_chunk, read_toc_len, Toc};

const CITIES: &str = "\
city,country,pop
Boston,United States,4628910
Amsterdam,Netherlands,7500000
";

type Entries = Vec<(Vec<u8>, Vec<(u64, u64)>)>;

fn encode_map(m: &SortedMap<Vec<u8>, Vec<Address>>) -> Vec<u8> {
    let mut entries: Entries = Vec::new();
    for i in 0..m.len() {
        let list = m.value_at(i).iter().map(|a| (a.offset, a.length)).collect();
        entries.push((m.key_at(i).clone(), list));
    }
    bincode::serialize(&entries).unwrap()
}

fn decode_map(bytes: &[u8]) -> CsvIndex<Vec<u8>> {
    let entries: Entries = bincode::deserialize(bytes).unwrap();
    let mut index = CsvIndex::new();
    for (k, list) in entries {
        for (offset, length) in list {
            index.entry(k.clone(), Address { offset, length });
        }
    }
    index
}

fn encode_toc(toc: &Toc<Vec<u8>>) -> Vec<u8> {
    let mut entries: Vec<(Vec<u8>, (u64, u64))> = Vec::new();
    for i in 0..toc.len() {
        let (k, a) = toc.entry_at(i);
        entries.push((k.clone(), (a.offset, a.length)));
    }
    bincode::serialize(&entries).unwrap()
}

fn decode_toc(bytes: &[u8]) -> Toc<Vec<u8>> {
    let entries: Vec<(Vec<u8>, (u64, u64))> = bincode::deserialize(bytes).unwrap();
    let mut toc = Toc::new(entries.len());
    for (k, (offset, length)) in entries {
        toc.push((k, Address { offset, length }));
    }
    toc
}

fn build_index_file(source: &[u8], column: usize, chunks: usize) -> Vec<u8> {
    let mut index = CsvIndexType::try_new("str").unwrap();
    let mut reader = CsvReader::new(source, column, 0, source.len() as u64).unwrap();
    while let Some((address, field)) = reader.next().unwrap() {
        index.insert(field, address);
    }
    let map = match index {
        CsvIndexType::STR(i) => i.into_map(),
        _ => unreachable!(),
    };
    let mut map = map;
    let chunked = chunk_map(&mut map, chunks);
    let mut phantom = Toc::new(chunked.len());
    phantom.build_empty(&chunked);
    let toc_len = 8 + encode_toc(&phantom).len() as u64;
    let payloads: Vec<(Vec<u8>, Vec<u8>)> =
        chunked.iter().map(|(k, m)| (k.clone(), encode_map(m))).collect();
    let mut toc = Toc::new(payloads.len());
    let body = toc.write_maps(&payloads, toc_len).unwrap();
    assemble_index(toc_len, &encode_toc(&toc), &body).unwrap()
}

fn run_filter(source: &[u8], file: &[u8], filter: &Filter) -> Vec<u8> {
    let mut prefix = [0u8; 8];
    prefix.copy_from_slice(&file[..8]);
    let toc_len = read_toc_len(prefix, file.len() as u64).unwrap();
    let toc = decode_toc(&file[8..toc_len as usize]);
    let bounds = filter.string_bounds();
    let mut out = Vec::new();
    for a in toc.find(&bounds) {
        let gz = file[a.offset as usize..(a.offset + a.length) as usize].to_vec();
        let index = decode_map(&read_chunk(&gz).unwrap());
        for r in index.matching_addresses(&bounds) {
            out.extend_from_slice(&source[r.offset as usize..(r.offset + r.length) as usize]);
        }
    }
    out
}

#[test]
fn full_round_trip_over_cities() {
    let source = CITIES.as_bytes();
    for chunks in 1..4 {
        let file = build_index_file(source, 0, chunks);
        let eq = Filter::from(Operator::EQ, "Boston", "", 0);
        assert_eq!(run_filter(source, &file, &eq), b"Boston,United States,4628910\n".to_vec());
        let pre = Filter::from(Operator::PRE, "Ams", "", 0);
        assert_eq!(run_filter(source, &file, &pre), b"Amsterdam,Netherlands,7500000\n".to_vec());
        let within = Filter::from(Operator::IN, "Amsterdam", "Boston", 0);
        assert_eq!(
            run_filter(source, &file, &within),
            b"Amsterdam,Netherlands,7500000\nBoston,United States,4628910\n".to_vec()
        );
        let none = Filter::from(Operator::EQ, "Paris", "", 0);
        assert_eq!(run_filter(source, &file, &none), Vec::<u8>::new());
    }
}

#[test]
fn chunk_count_heuristic() {
    assert_eq!(num_chunks(0), 2);
    assert_eq!(num_chunks(49_999), 2);
    assert_eq!(num_chunks(120_000), 4);
}

#[test]
fn find_picks_overlapping_chunks() {
    let mut toc: Toc<i64> = Toc::new(4);
    for (k, o) in [(i64::MIN, 100u64), (10, 200), (20, 300), (30, 400)] {
        toc.push((k, Address { offset: o, length: 1 }));
    }
    let b = toc.bounds();
    assert_eq!(b.len(), 4);
    assert_eq!(b[1].1, (Included(10), Excluded(20)));
    assert_eq!(b[3].1, (Included(30), Unbounded));
    let found: Vec<u64> = toc.find(&(Excluded(0), Excluded(i64::MAX))).iter().map(|a| a.offset).collect();
    assert_eq!(found, vec![100, 200, 300, 400]);
    let mut toc2: Toc<i64> = Toc::new(4);
    for (k, o) in [(i64::MIN, 100u64), (10, 200), (20, 300), (30, 400)] {
        toc2.push((k, Address { offset: o, length: 1 }));
    }
    let found: Vec<u64> = toc2.find(&(Included(20), Included(20))).iter().map(|a| a.offset).collect();
    assert_eq!(found, vec![300]);
}

#[test]
fn chunks_are_laid_out_back_to_back() {
    let mut toc: Toc<i64> = Toc::new(2);
    let payloads = vec![(1i64, vec![1u8, 2, 3]), (5i64, vec![4u8; 100])];
    let body = toc.write_maps(&payloads, 40).unwrap();
    let (_, a0) = toc.entry_at(0);
    let (k1, a1) = toc.entry_at(1);
    assert_eq!(a0.offset, 40);
    assert_eq!(a1.offset, 40 + a0.length);
    assert_eq!(*k1, 5);
    assert_eq!(body.len() as u64, a0.length + a1.length);
    let first = body[..a0.length as usize].to_vec();
    assert_eq!(read_chunk(&first).unwrap(), vec![1u8, 2, 3]);
    assert_eq!(&body[..2], &[0x1f, 0x8b]);
}

#[test]
fn toc_prefix_is_checked() {
    assert_eq!(read_toc_len(u64_to_u8s(20), 100), Ok(20));
    assert_eq!(read_toc_len(u64_to_u8s(7), 100), Err(IndexError::TocLengthImplausible));
    assert_eq!(read_toc_len(u64_to_u8s(101), 100), Err(IndexError::TocLengthImplausible));
    assert_eq!(assemble_index(12, &vec![1, 2, 3], &vec![9]), Err(IndexError::TocSizeChanged));
    assert_eq!(
        assemble_index(11, &vec![1, 2, 3], &vec![9]),
        Ok(vec![0, 0, 0, 0, 0, 0, 0, 11, 1, 2, 3, 9])
    );
    assert_eq!(read_chunk(&vec![1, 2, 3]), Err(IndexError::Decompression));
}

#[test]
fn drain_files_staged_pairs_in_order() {
    let mut index = CsvIndexType::try_new("STR").unwrap();
    let mut staged = vec![
        (b"x".to_vec(), Address { offset: 1, length: 1 }),
        (b"x".to_vec(), Address { offset: 2, length: 1 }),
        (b"a".to_vec(), Address { offset: 3, length: 1 }),
    ];
    csv_index::index::drain_into(&mut index, &mut staged);
    assert!(staged.is_empty());
    match index {
        CsvIndexType::STR(i) => {
            let all: Vec<u64> = i.matching_addresses(&(Unbounded, Unbounded)).iter().map(|a| a.offset).collect();
            assert_eq!(all, vec![3, 1, 2]);
        }
        _ => unreachable!(),
    }
}

#[test]
fn partitions_split_by_byte_offset() {
    assert_eq!(csv_index::index::partitions(10, 3), vec![(0, 3), (3, 3), (6, 4)]);
    assert_eq!(csv_index::index::partitions(2, 4), vec![(0, 0), (0, 0), (0, 0), (0, 2)]);
    assert_eq!(csv_index::index::partitions(5, 1), vec![(0, 5)]);
}

#[test]
fn many_integer_keys_make_four_chunks_and_gt_zero_skips_the_negative_ones() {
    let mut index = CsvIndexType::try_new("int").unwrap();
    for k in -60_000i64..60_000 {
        index.insert(k.to_string().into_bytes(), Address { offset: k as u64, length: 1 });
    }
    assert_eq!(index.uniques(), 120_000);
    let pieces = num_chunks(index.uniques());
    assert_eq!(pieces, 4);
    let mut map = match index {
        CsvIndexType::I64(i) => i.into_map(),
        _ => unreachable!(),
    };
    let chunked = chunk_map(&mut map, pieces);
    let mut toc: Toc<i64> = Toc::new(pieces);
    toc.build_empty(&chunked);
    assert_eq!(toc.len(), 4);
    let labels: Vec<i64> = (0..4).map(|i| *toc.entry_at(i).0).collect();
    assert_eq!(labels, vec![-60_000, -30_000, 0, 30_000]);
    // give each chunk a distinct address to see which are read
    let mut real: Toc<i64> = Toc::new(pieces);
    for (i, l) in labels.iter().enumerate() {
        real.push((*l, Address { offset: i as u64, length: 1 }));
    }
    let gt = Filter::from(Operator::GT, "0", "", 0);
    let read: Vec<u64> = real.find(&gt.int_bounds()).iter().map(|a| a.offset).collect();
    assert_eq!(read, vec![2, 3]);
}

#[test]
fn offsets_past_two_to_the_sixty_four_are_refused() {
    let mut toc: Toc<i64> = Toc::new(1);
    let payloads = vec![(1i64, vec![1u8, 2, 3])];
    assert_eq!(toc.write_maps(&payloads, u64::MAX - 3), Err(IndexError::TooLarge));
}

#[test]
fn decoded_entries_must_ascend() {
    let ok = vec![(b"a".to_vec(), vec![Address { offset: 1, length: 1 }]), (b"b".to_vec(), vec![])];
    let ix = CsvIndex::from_entries(ok).unwrap();
    assert_eq!(ix.keys(), vec![b"a".to_vec(), b"b".to_vec()]);
    let bad = vec![(b"b".to_vec(), vec![]), (b"a".to_vec(), vec![])];
    assert!(CsvIndex::from_entries(bad).is_none());
    let dup = vec![(b"a".to_vec(), vec![]), (b"a".to_vec(), vec![])];
    assert!(CsvIndex::from_entries(dup).is_none());
}
