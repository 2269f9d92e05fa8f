use brc::array::Array;
use brc::format::{push_tenths, render};
use brc::pipeline::summarize_file;
use brc::record::Record;

fn tenths(v: i16) -> String {
    let mut out = Vec::new();
    push_tenths(&mut out, v);
    String::from_utf8(out).unwrap()
}

fn averages(entries: &[(Array, Record)]) -> Vec<Vec<u8>> {
    entries
        .iter()
        .map(|(_, r)| format!("{}", ((r.total as f64) / 10.0) / r.count as f64).into_bytes())
        .collect()
}

#[test]
fn tenths_render_as_floats_do() {
    for v in [-9999i16, -1000, -999, -70, -72, -5, -4, 0, 5, 10, 123, 150, 999, 1000, 9999] {
        assert_eq!(tenths(v), format!("{}", (v as f64) / 10.0));
    }
    assert_eq!(tenths(-70), "-7");
    assert_eq!(tenths(123), "12.3");
}

#[test]
fn end_to_end_report_text() {
    let text: &[u8] = b"Station A;12.3\nStation B;-7.0\nStation A;15.0\n";
    let acc = summarize_file(text, 2).unwrap();
    let out = render(&acc, &averages(&acc));
    assert_eq!(String::from_utf8(out).unwrap(), "{Station A=12.3/13.65/15, Station B=-7/-7/-7}");
}

#[test]
fn empty_report() {
    let acc: Vec<(Array, Record)> = Vec::new();
    assert_eq!(render(&acc, &Vec::new()), b"{}".to_vec());
}

#[test]
fn same_input_same_report() {
    let text: &[u8] = b"z;1.0\ny;-2.5\nz;3.3\nlong long long long long key;0.1\n";
    let a = summarize_file(text, 3).unwrap();
    let b = summarize_file(text, 1).unwrap();
    assert_eq!(render(&a, &averages(&a)), render(&b, &averages(&b)));
}
