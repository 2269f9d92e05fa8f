use brc::aggregate::{process, LineError};
use brc::array::Array;
use brc::merge::merge_into;
use brc::partition::chunk_bounds;
use brc::record::Record;

fn run(text: &[u8], n: usize) -> Result<Vec<(Vec<u8>, Record)>, LineError> {
    let b = chunk_bounds(text, n);
    let mut acc: Vec<(Array, Record)> = Vec::new();
    for k in 0..n {
        let shard = process(&text[b[k]..b[k + 1]])?;
        merge_into(&mut acc, shard);
    }
    Ok(acc.into_iter().map(|(k, r)| (k.as_bytes().to_vec(), r)).collect())
}

fn rec(count: usize, total: i64, min: i16, max: i16) -> Record {
    Record { count, total, min, max }
}

#[test]
fn record_new_update_merge() {
    let mut a = Record::new(123);
    assert_eq!(a, rec(1, 123, 123, 123));
    a.update(150);
    assert_eq!(a, rec(2, 273, 123, 150));
    let mut b = Record::new(-70);
    b.merge(a);
    assert_eq!(b, rec(3, 203, -70, 150));
}

#[test]
fn record_merge_order_does_not_matter() {
    let readings: [i16; 6] = [12, -5, 300, 0, -999, 47];
    let mut whole = Record::new(readings[0]);
    for v in &readings[1..] {
        whole.update(*v);
    }
    let mut g1 = Record::new(readings[0]);
    g1.update(readings[1]);
    let mut g2 = Record::new(readings[2]);
    g2.update(readings[3]);
    let mut g3 = Record::new(readings[4]);
    g3.update(readings[5]);
    let mut x = g3;
    x.merge(g1);
    x.merge(g2);
    let mut y = g2;
    let mut g1g3 = g1;
    g1g3.merge(g3);
    y.merge(g1g3);
    assert_eq!(x, whole);
    assert_eq!(y, whole);
}

#[test]
fn end_to_end_example() {
    let text: &[u8] = b"Station A;12.3\nStation B;-7.0\nStation A;15.0\n";
    for n in 1..5usize {
        let got = run(text, n).unwrap();
        assert_eq!(
            got,
            vec![
                (b"Station A".to_vec(), rec(2, 273, 123, 150)),
                (b"Station B".to_vec(), rec(1, -70, -70, -70)),
            ]
        );
    }
}

#[test]
fn same_input_gives_same_aggregate() {
    let text: &[u8] = b"b;1.0\na;2.5\n\nc;-3.3\na;-1.0\nA very long station name indeed;4.4\nb;9.9";
    let first = run(text, 3).unwrap();
    let second = run(text, 3).unwrap();
    assert_eq!(first, second);
    assert_eq!(run(text, 1).unwrap(), first);
    let keys: Vec<Vec<u8>> = first.iter().map(|(k, _)| k.clone()).collect();
    let mut sorted = keys.clone();
    sorted.sort();
    assert_eq!(keys, sorted);
}

#[test]
fn empty_input_and_empty_lines() {
    assert_eq!(run(b"", 2).unwrap(), vec![]);
    assert_eq!(run(b"\n\n", 1).unwrap(), vec![]);
}

#[test]
fn missing_delimiter_is_format_error() {
    assert_eq!(run(b"a;1.0\nno delimiter\nb;x\n", 1), Err(LineError::Format));
}

#[test]
fn bad_value_is_parse_error() {
    assert_eq!(run(b"a;1.0\nb;1.25\nno delimiter\n", 1), Err(LineError::Parse));
    assert_eq!(run(b"a;12\n", 1), Err(LineError::Parse));
}

#[test]
fn shard_map_insert_and_get() {
    let r = process(b"k;1.0\nk;3.0\nlonger key than twenty-three bytes;-2.0\n").unwrap();
    assert_eq!(r.get(b"k"), Some(rec(2, 40, 10, 30)));
    assert_eq!(
        r.get(b"longer key than twenty-three bytes"),
        Some(rec(1, -20, -20, -20))
    );
    assert_eq!(r.get(b"missing"), None);
    assert_eq!(r.into_entries().len(), 2);
}

fn summarize(text: &[u8], n: usize) -> Result<Vec<(Vec<u8>, Record)>, LineError> {
    brc::pipeline::summarize_file(text, n)
        .map(|e| e.into_iter().map(|(k, r)| (k.as_bytes().to_vec(), r)).collect())
}

#[test]
fn summarize_file_example_any_worker_count() {
    let text: &[u8] = b"Station A;12.3\nStation B;-7.0\nStation A;15.0";
    for n in 1..6usize {
        assert_eq!(
            summarize(text, n).unwrap(),
            vec![
                (b"Station A".to_vec(), rec(2, 273, 123, 150)),
                (b"Station B".to_vec(), rec(1, -70, -70, -70)),
            ]
        );
    }
}

#[test]
fn summarize_file_reports_first_error() {
    assert_eq!(summarize(b"a;1.0\nb;1.x\nnodelim\n", 2), Err(LineError::Parse));
    assert_eq!(summarize(b"a;1.0\nnodelim\nb;1.x\n", 3), Err(LineError::Format));
    assert_eq!(summarize(b"", 4).unwrap(), vec![]);
}
