use waypaths::data::Error;
use waypaths::data::NumberError;
use waypaths::data::Path;
use waypaths::data::Point;
use waypaths::records::format_number;
use waypaths::records::format_records;
use waypaths::records::lines;
use waypaths::records::parse_line;
use waypaths::records::parse_number;
use waypaths::records::parse_records;
use waypaths::records::split;
use waypaths::records::Record;
use waypaths::records::UNITS_PER_ONE;

fn pt(x: i32, y: i32) -> Point {
    Point { x, y }
}

#[test]
fn numbers_are_read_in_thousandths() {
    assert_eq!(UNITS_PER_ONE, 1000);
    assert_eq!(parse_number(b"12.5"), Ok(12_500));
    assert_eq!(parse_number(b"0"), Ok(0));
    assert_eq!(parse_number(b"-0.001"), Ok(-1));
    assert_eq!(parse_number(b"+3"), Ok(3_000));
    assert_eq!(parse_number(b"5."), Ok(5_000));
    assert_eq!(parse_number(b".5"), Ok(500));
    assert_eq!(parse_number(b"-.25"), Ok(-250));
    assert_eq!(parse_number(b"007.010"), Ok(7_010));
    assert_eq!(parse_number(b"49.99"), Ok(49_990));
}

#[test]
fn digits_behind_the_third_decimal_are_dropped() {
    assert_eq!(parse_number(b"1.23456"), Ok(1_234));
    assert_eq!(parse_number(b"1.2349999"), Ok(1_234));
    assert_eq!(parse_number(b"-1.2349999"), Ok(-1_234));
    assert_eq!(parse_number(b"0.0009"), Ok(0));
    assert_eq!(parse_number(b"-0.0009"), Ok(0));
}

#[test]
fn what_is_no_number() {
    assert_eq!(parse_number(b""), Err(NumberError::Empty));
    assert_eq!(parse_number(b"."), Err(NumberError::Invalid));
    assert_eq!(parse_number(b"-"), Err(NumberError::Invalid));
    assert_eq!(parse_number(b"+."), Err(NumberError::Invalid));
    assert_eq!(parse_number(b"abc"), Err(NumberError::Invalid));
    assert_eq!(parse_number(b"1.2.3"), Err(NumberError::Invalid));
    assert_eq!(parse_number(b"--1"), Err(NumberError::Invalid));
    assert_eq!(parse_number(b"1 "), Err(NumberError::Invalid));
    assert_eq!(parse_number(b" 1"), Err(NumberError::Invalid));
    assert_eq!(parse_number(b"1,5"), Err(NumberError::Invalid));
    assert_eq!(parse_number(b"12x.5"), Err(NumberError::Invalid));
    assert_eq!(parse_number(b"12.5x"), Err(NumberError::Invalid));
    assert_eq!(parse_number(b"99999999999999999999999x"), Err(NumberError::Invalid));
}

#[test]
fn numbers_with_an_exponent() {
    assert_eq!(parse_number(b"1e3"), Ok(1_000_000));
    assert_eq!(parse_number(b"1.5e2"), Ok(150_000));
    assert_eq!(parse_number(b"1e-3"), Ok(1));
    assert_eq!(parse_number(b"12345e-2"), Ok(123_450));
    assert_eq!(parse_number(b"1E2"), Ok(100_000));
    assert_eq!(parse_number(b"5e-1"), Ok(500));
    assert_eq!(parse_number(b".5e1"), Ok(5_000));
    assert_eq!(parse_number(b"1.2345e3"), Ok(1_234_500));
    assert_eq!(parse_number(b"-2.5e-1"), Ok(-250));
    assert_eq!(parse_number(b"1e0"), Ok(1_000));
    assert_eq!(parse_number(b"1.e1"), Ok(10_000));
    assert_eq!(parse_number(b"1e+2"), Ok(100_000));
    assert_eq!(parse_number(b"+1e+2"), Ok(100_000));
    assert_eq!(parse_number(b"1e007"), Err(NumberError::OutOfRange));
    assert_eq!(parse_number(b"1e6"), Ok(1_000_000_000));
    assert_eq!(parse_number(b"9.99999e-4"), Ok(0));
    assert_eq!(parse_number(b"999.9999e-6"), Ok(0));
    assert_eq!(parse_number(b"0.000000000001e12"), Ok(1_000));
    assert_eq!(parse_number(b"123456789012345678901234567890e-25"), Ok(12_345_678));
}

#[test]
fn exponents_far_off() {
    assert_eq!(parse_number(b"0e99"), Ok(0));
    assert_eq!(parse_number(b"000e5"), Ok(0));
    assert_eq!(parse_number(b"1e99"), Err(NumberError::OutOfRange));
    assert_eq!(parse_number(b"1e-99"), Ok(0));
    assert_eq!(parse_number(b"-1e-99"), Ok(0));
    assert_eq!(parse_number(b"0.0e99999999999999999999999999999999"), Ok(0));
    assert_eq!(parse_number(b"0.01e99999999999999999999999999999999"), Err(NumberError::OutOfRange));
    assert_eq!(parse_number(b"-7e99999999999999999999999999999999"), Err(NumberError::OutOfRange));
    assert_eq!(parse_number(b"1e-99999999999999999999999999999999"), Ok(0));
    assert_eq!(parse_number(b"2147483.647e0"), Ok(i32::MAX));
    assert_eq!(parse_number(b"2147483647e-3"), Ok(i32::MAX));
    assert_eq!(parse_number(b"2.147483647e6"), Ok(i32::MAX));
    assert_eq!(parse_number(b"2.147483648e6"), Err(NumberError::OutOfRange));
    assert_eq!(parse_number(b"21474836.48e-1"), Err(NumberError::OutOfRange));
    assert_eq!(parse_number(b"0.0000002147483648e13"), Err(NumberError::OutOfRange));
    assert_eq!(parse_number(b"-2147483648e-3"), Ok(i32::MIN));
    assert_eq!(parse_number(b"-2147483649e-3"), Err(NumberError::OutOfRange));
}

#[test]
fn what_is_no_exponent() {
    assert_eq!(parse_number(b"1e"), Err(NumberError::Invalid));
    assert_eq!(parse_number(b"1e+"), Err(NumberError::Invalid));
    assert_eq!(parse_number(b"1e-"), Err(NumberError::Invalid));
    assert_eq!(parse_number(b"e5"), Err(NumberError::Invalid));
    assert_eq!(parse_number(b".e5"), Err(NumberError::Invalid));
    assert_eq!(parse_number(b"1e5x"), Err(NumberError::Invalid));
    assert_eq!(parse_number(b"1e3.5"), Err(NumberError::Invalid));
    assert_eq!(parse_number(b"1e2e3"), Err(NumberError::Invalid));
    assert_eq!(parse_number(b"1e+-2"), Err(NumberError::Invalid));
    assert_eq!(parse_number(b"1 e2"), Err(NumberError::Invalid));
    assert_eq!(parse_number(b"inf"), Err(NumberError::Invalid));
    assert_eq!(parse_number(b"NaN"), Err(NumberError::Invalid));
}

#[test]
fn a_record_with_exponents() {
    assert_eq!(parse_line(b"Point:1e1:-2.5E-1"), Ok(Record::Point(pt(10_000, -250))));
}

#[test]
fn numbers_at_the_edge_of_the_range() {
    assert_eq!(parse_number(b"2147483.647"), Ok(i32::MAX));
    assert_eq!(parse_number(b"2147483.648"), Err(NumberError::OutOfRange));
    assert_eq!(parse_number(b"-2147483.648"), Ok(i32::MIN));
    assert_eq!(parse_number(b"-2147483.649"), Err(NumberError::OutOfRange));
    assert_eq!(parse_number(b"2147484"), Err(NumberError::OutOfRange));
    assert_eq!(parse_number(b"99999999999999999999999999999999"), Err(NumberError::OutOfRange));
    assert_eq!(parse_number(b"-99999999999999999999999999999999.5"), Err(NumberError::OutOfRange));
    assert_eq!(parse_number(b"2147483.6479999"), Ok(i32::MAX));
}

#[test]
fn text_is_parted_at_separators() {
    assert_eq!(split(b"", b':'), vec![b"".to_vec()]);
    assert_eq!(split(b"abc", b':'), vec![b"abc".to_vec()]);
    assert_eq!(split(b"a:b:c", b':'), vec![b"a".to_vec(), b"b".to_vec(), b"c".to_vec()]);
    assert_eq!(split(b":a::", b':'), vec![b"".to_vec(), b"a".to_vec(), b"".to_vec(), b"".to_vec()]);
}

#[test]
fn lines_of_a_text() {
    let none: Vec<Vec<u8>> = vec![];
    assert_eq!(lines(b""), none);
    assert_eq!(lines(b"a\nb\n"), vec![b"a".to_vec(), b"b".to_vec()]);
    assert_eq!(lines(b"a\r\nb"), vec![b"a".to_vec(), b"b".to_vec()]);
    assert_eq!(lines(b"a\n\nb\r"), vec![b"a".to_vec(), b"".to_vec(), b"b\r".to_vec()]);
    assert_eq!(lines(b"\n"), vec![b"".to_vec()]);
    assert_eq!(lines(b"a\r\r\n"), vec![b"a\r".to_vec()]);
}

#[test]
fn a_line_holds_a_record() {
    assert_eq!(parse_line(b"Point:1.5:-2"), Ok(Record::Point(pt(1_500, -2_000))));
    assert_eq!(
        parse_line(b"Path:0:1:2:3.25"),
        Ok(Record::Path(Path { start: pt(0, 1_000), end: pt(2_000, 3_250) }))
    );
    assert_eq!(parse_line(b"Point:1:2:more:fields"), Ok(Record::Point(pt(1_000, 2_000))));
    assert_eq!(parse_line(b""), Ok(Record::Other));
    assert_eq!(parse_line(b"Circle:1:2:3"), Ok(Record::Other));
    assert_eq!(parse_line(b"point:1:2"), Ok(Record::Other));
    assert_eq!(parse_line(b"Points:1:2"), Ok(Record::Other));
    assert_eq!(parse_line(b" Point:1:2"), Ok(Record::Other));
}

#[test]
fn a_line_with_a_bad_field_fails() {
    assert_eq!(parse_line(b"Point:x:2"), Err(NumberError::Invalid));
    assert_eq!(parse_line(b"Point:1:y"), Err(NumberError::Invalid));
    assert_eq!(parse_line(b"Point::y"), Err(NumberError::Empty));
    assert_eq!(parse_line(b"Point:1"), Err(NumberError::Empty));
    assert_eq!(parse_line(b"Point"), Err(NumberError::Empty));
    assert_eq!(parse_line(b"Point:9999999999:y"), Err(NumberError::OutOfRange));
    assert_eq!(parse_line(b"Path:0:1:2"), Err(NumberError::Empty));
    assert_eq!(parse_line(b"Path:0:1:2:z"), Err(NumberError::Invalid));
    assert_eq!(parse_line(b"Path:0:b:c:d"), Err(NumberError::Invalid));
}

#[test]
fn records_of_a_text() {
    let text = b"Point:0:0\nPoint:1.5:2.25\r\n# a comment\n\nPath:0:0:1.5:2.25\nPoint:-3:4";
    let (points, paths) = parse_records(text).unwrap();
    assert_eq!(points, vec![pt(0, 0), pt(1_500, 2_250), pt(-3_000, 4_000)]);
    assert_eq!(paths, vec![Path { start: pt(0, 0), end: pt(1_500, 2_250) }]);
    let (none, nothing) = parse_records(b"").unwrap();
    assert!(none.is_empty() && nothing.is_empty());
}

#[test]
fn a_text_with_a_bad_record_fails() {
    match parse_records(b"Point:0:0\nPoint:a:0\nPoint::0\n") {
        Err(Error::Parse(kind)) => assert_eq!(kind, NumberError::Invalid),
        _ => panic!("the second line holds no number"),
    }
    match parse_records(b"Other\nPath:1:2:3\n") {
        Err(Error::Parse(kind)) => assert_eq!(kind, NumberError::Empty),
        _ => panic!("the segment lacks a field"),
    }
    match parse_records(b"Point:1:2\r") {
        Err(Error::Parse(kind)) => assert_eq!(kind, NumberError::Invalid),
        _ => panic!("a carriage return without a line feed stays in the field"),
    }
}

#[test]
fn numbers_are_written_as_the_shortest_decimal() {
    assert_eq!(format_number(0), b"0".to_vec());
    assert_eq!(format_number(1_500), b"1.5".to_vec());
    assert_eq!(format_number(2_000), b"2".to_vec());
    assert_eq!(format_number(-500), b"-0.5".to_vec());
    assert_eq!(format_number(1), b"0.001".to_vec());
    assert_eq!(format_number(12_500), b"12.5".to_vec());
    assert_eq!(format_number(-1), b"-0.001".to_vec());
    assert_eq!(format_number(7_010), b"7.01".to_vec());
    assert_eq!(format_number(100), b"0.1".to_vec());
    assert_eq!(format_number(101), b"0.101".to_vec());
    assert_eq!(format_number(-30_000), b"-30".to_vec());
    assert_eq!(format_number(i32::MAX), b"2147483.647".to_vec());
    assert_eq!(format_number(i32::MIN), b"-2147483.648".to_vec());
}

#[test]
fn records_are_written_as_lines() {
    assert_eq!(pt(1_500, 2_000).to_record(), b"Point:1.5:2\n".to_vec());
    assert_eq!(pt(1_500, -2_000).to_record(), b"Point:1.5:-2\n".to_vec());
    let whole = Path { start: pt(0, 0), end: pt(3_000, 4_000) };
    assert_eq!(whole.to_record(), b"Path:0:0:3:4\n".to_vec());
    let s = Path { start: pt(0, 1), end: pt(-1_000, 49_990) };
    assert_eq!(s.to_record(), b"Path:0:0.001:-1:49.99\n".to_vec());
    let text = format_records(&vec![pt(1, 2), pt(3, 4)], &vec![s]);
    assert_eq!(text, b"Point:0.001:0.002\nPoint:0.003:0.004\nPath:0:0.001:-1:49.99\n".to_vec());
}

#[test]
fn what_is_written_reads_back() {
    let values = [0, 1, -1, 10, 100, 990, 999, 1_000, -1_000, 123_450, 123_456, -987_654, i32::MAX, i32::MIN, i32::MAX - 1];
    for v in values {
        assert_eq!(parse_number(&format_number(v)), Ok(v));
    }
    let points = vec![pt(0, 0), pt(i32::MAX, i32::MIN), pt(-5, 5), pt(50_000, 12_340)];
    let paths = vec![
        Path { start: pt(1, 2), end: pt(3, 4) },
        Path { start: pt(i32::MIN, 0), end: pt(0, i32::MAX) },
    ];
    let (p, s) = parse_records(&format_records(&points, &paths)).unwrap();
    assert_eq!(p, points);
    assert_eq!(s, paths);
    for point in points.iter() {
        let record = point.to_record();
        assert_eq!(parse_line(&record[..record.len() - 1]), Ok(Record::Point(*point)));
    }
}

#[test]
fn errors_tell_themselves_in_words() {
    assert_eq!(NumberError::Empty.message(), "cannot read a number from an empty field");
    assert_eq!(NumberError::Invalid.message(), "the field is not a decimal number");
    assert_eq!(NumberError::OutOfRange.message(), "the number is too large for a coordinate");
    assert_eq!(Error::Parse(NumberError::Invalid).message(), "the field is not a decimal number");
    let io = std::io::Error::new(std::io::ErrorKind::NotFound, "no such file");
    assert_eq!(Error::IO(io).message(), "no such file");
    let from: Error = NumberError::Empty.into();
    assert!(matches!(from, Error::Parse(NumberError::Empty)));
    let other: Error = std::io::Error::new(std::io::ErrorKind::Other, "broken").into();
    assert!(matches!(other, Error::IO(_)));
}
