use csv_index::address::Address;
use csv_index::csv_reader::CsvReader;
use csv_index::index::stage_records;

const CITIES: &str = "\
city,country,pop
Boston,United States,4628910
Amsterdam,Netherlands,7500000
";

#[test]
fn test_read_full() {
    let input = CITIES.as_bytes();
    let mut reader = CsvReader::new(input, 0, 0, 1000).unwrap();

    assert_eq!(reader.padding(), vec![].as_slice());

    let item = reader.next().unwrap();
    assert!(item.is_some());

    let (address, record) = item.unwrap();
    assert_eq!(
        address,
        Address {
            offset: 17,
            length: 29
        }
    );
    assert_eq!(record, b"Boston".to_owned());

    let item = reader.next().unwrap();
    assert!(item.is_some());

    let (address, record) = item.unwrap();
    assert_eq!(
        address,
        Address {
            offset: 46,
            length: 30
        }
    );
    assert_eq!(record, b"Amsterdam".to_owned());

    let item = reader.next().unwrap();
    assert!(item.is_none());
}

#[test]
fn test_read_chunk() {
    let input = CITIES.as_bytes();
    let mut reader = CsvReader::new(input, 0, 0, 40).unwrap();

    assert_eq!(reader.padding(), vec![].as_slice());

    let item = reader.next().unwrap();
    assert!(item.is_some());

    let (address, record) = item.unwrap();
    assert_eq!(
        address,
        Address {
            offset: 17,
            length: 29
        }
    );
    assert_eq!(record, b"Boston".to_owned());

    let item = reader.next().unwrap();
    assert!(item.is_none());
}

#[test]
fn test_read_offset() {
    let input = CITIES.as_bytes();
    let mut reader = CsvReader::new(input, 0, 25, 1000).unwrap();

    assert_eq!(
        std::str::from_utf8(reader.padding()),
        Ok("nited States,4628910\n")
    );

    let item = reader.next().unwrap();
    assert!(item.is_some());

    let (address, record) = item.unwrap();
    assert_eq!(
        address,
        Address {
            offset: 46,
            length: 30
        }
    );
    assert_eq!(record, b"Amsterdam".to_owned());

    let item = reader.next().unwrap();
    assert!(item.is_none());
}

fn collect(input: &[u8], column: usize, offset: u64, len: u64) -> Vec<(Address, Vec<u8>)> {
    let mut reader = CsvReader::new(input, column, offset, len).unwrap();
    let mut out = Vec::new();
    while let Some(item) = reader.next().unwrap() {
        out.push(item);
    }
    out
}

#[test]
fn reads_other_columns() {
    let got = collect(CITIES.as_bytes(), 2, 0, 1000);
    assert_eq!(got.len(), 2);
    assert_eq!(got[0].1, b"4628910".to_vec());
    assert_eq!(got[1].1, b"7500000".to_vec());
}

#[test]
fn missing_column_is_an_error() {
    let mut reader = CsvReader::new(CITIES.as_bytes(), 7, 0, 1000).unwrap();
    assert_eq!(reader.next(), Err(csv_index::error::IndexError::MissingColumn));
}

#[test]
fn partitions_cover_each_record_once() {
    let mut text = String::from("k,v\n");
    for i in 0..50 {
        text.push_str(&format!("key{},{}\n", i, i * i));
    }
    let input = text.as_bytes();
    for threads in 1..80u64 {
        let size = input.len() as u64;
        let mut seen = Vec::new();
        for (offset, len) in csv_index::index::partitions(size, threads) {
            for (a, _) in collect(input, 0, offset, len) {
                seen.push(a.offset);
            }
        }
        // every record is read exactly once
        let mut expected = Vec::new();
        let mut start = 4u64;
        for _line in text.lines().skip(1) {
            expected.push(start);
            start += _line.len() as u64 + 1;
        }
        seen.sort();
        assert_eq!(seen, expected, "threads = {}", threads);
    }
}

#[test]
fn tail_record_goes_to_the_last_worker() {
    let input = b"h\naaaaaaaaaa\nb\n";
    let mut seen = Vec::new();
    for (offset, len) in csv_index::index::partitions(input.len() as u64, 4) {
        for (a, f) in collect(input, 0, offset, len) {
            seen.push((a.offset, f));
        }
    }
    seen.sort();
    assert_eq!(seen, vec![(2, b"aaaaaaaaaa".to_vec()), (13, b"b".to_vec())]);
}

#[test]
fn staging_stops_at_the_window_and_resumes() {
    let mut reader = CsvReader::new(CITIES.as_bytes(), 0, 0, 1000).unwrap();
    let mut staged = Vec::new();
    assert_eq!(stage_records(&mut reader, &mut staged, 1), Ok(false));
    assert_eq!(staged, vec![(b"Boston".to_vec(), Address { offset: 17, length: 29 })]);
    assert_eq!(stage_records(&mut reader, &mut staged, 10), Ok(true));
    assert_eq!(staged.len(), 2);
    assert_eq!(staged[1], (b"Amsterdam".to_vec(), Address { offset: 46, length: 30 }));
    assert_eq!(stage_records(&mut reader, &mut staged, 10), Ok(true));
    assert_eq!(staged.len(), 2);
}
