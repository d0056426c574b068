//! Laws that span functions, on values.

use flats::codec::{read_envelope, seal, unseal, write_envelope};
use flats::compiler::constants::Const;
use flats::engine::catalog::{merge, sorted_by_id};
use flats::float::{is_equal32, is_equal64, is_nan32, is_nan64, is_whole64, precedes32};
use flats::index::{bytes_for, read_slot, write_slot, FlatIndex, Slot as Header};
use flats::lexer::{Lexer, Token};
use flats::metadata::common::{
    CollectionConfig, ColumnSpec, ColumnType, Dim, Ordinal, RangeOp, Schema, Value,
};
use flats::metadata::index::MetadataIndex;
use flats::metadata::tuples::{RowGet, TupleStore};
use flats::shell::split::split;
use flats::sql::Literal;

fn schema() -> Schema {
    Schema::from_columns(vec![
        ColumnSpec::Vector {
            name: "v".into(),
            dim: Dim::new(2).unwrap(),
        },
        ColumnSpec::Scalar {
            name: "n".into(),
            ty: ColumnType::Int,
        },
    ])
    .unwrap()
}

#[test]
fn pieces_and_remainder_are_the_input() {
    let input = "SELECT 'a;b';\n-- c;\nINSERT ''';''';  SELECT";
    let (statements, rest) = split(input);
    assert_eq!(statements.len(), 2);
    assert_eq!(statements.concat() + &rest, input);
    assert!(statements.iter().all(|s| s.ends_with(';')));
}

#[test]
fn an_open_statement_may_be_continued() {
    let input = "SELECT 'a;b'; -- c;\nINSERT ''';'''; SELECT d;";
    let (whole, left) = split(input);
    for (at, _) in input.char_indices() {
        let (mut statements, open) = split(&input[..at]);
        if open.is_empty() {
            continue; // what was blank is dropped
        }
        let (more, rest) = split(&(open + &input[at..]));
        statements.extend(more);
        assert_eq!((statements, rest), (whole.clone(), left.clone()), "cut at {at}");
    }
}

#[test]
fn splitter_and_lexer_agree() {
    let input = "SELECT 'a;b' -- c;\n; INSERT ''';'''; -- ;";
    let tokens = Lexer::new(input).tokenize().unwrap();
    let ends: Vec<usize> = tokens
        .iter()
        .filter(|t| t.token == Token::Semicolon)
        .map(|t| t.span.end)
        .collect();
    let (statements, _) = split(input);
    let mut cuts = Vec::new();
    let mut at = 0;
    for s in &statements {
        at += s.len();
        cuts.push(at);
    }
    assert_eq!(cuts, ends);
}

#[test]
fn an_envelope_gives_back_what_was_put_in() {
    let bytes = write_envelope(b"ABCD", 3, 77, b"body");
    assert_eq!(read_envelope(b"ABCD", 3, &bytes).unwrap(), (77, &b"body"[..]));
    assert_eq!(read_envelope(b"ABCE", 3, &bytes).unwrap_err(), "bad magic");
    assert_eq!(
        read_envelope(b"ABCD", 4, &bytes).unwrap_err(),
        "unsupported version 3"
    );
    assert_eq!(read_envelope(b"ABCD", 3, &bytes[1..]).unwrap_err(), "crc mismatch");
    assert_eq!(read_envelope(b"ABCD", 3, b"").unwrap_err(), "truncated");

    // A body length that does not match, under a checksum that does.
    let mut longer = bytes[..bytes.len() - 4].to_vec();
    longer.push(0);
    seal(&mut longer);
    assert_eq!(read_envelope(b"ABCD", 3, &longer).unwrap_err(), "trailing bytes");
    let mut shorter = bytes[..bytes.len() - 5].to_vec();
    seal(&mut shorter);
    assert_eq!(
        read_envelope(b"ABCD", 3, &shorter).unwrap_err(),
        "body length overruns file"
    );
}

#[test]
fn a_seal_breaks_with_any_byte() {
    let mut bytes = b"some twenty bytes of text".to_vec();
    seal(&mut bytes);
    assert_eq!(unseal(&bytes).unwrap(), b"some twenty bytes of text");
    for i in 0..bytes.len() {
        let mut torn = bytes.clone();
        torn[i] ^= 1;
        assert!(unseal(&torn).is_err(), "byte {i}");
    }
}

#[test]
fn a_fresh_image_opens_as_it_was_made() {
    let mut image = vec![0; bytes_for(3, 5).unwrap()];
    let made = FlatIndex::create(&mut image, Dim::new(3).unwrap(), 5);
    let opened = FlatIndex::open(&image).unwrap();
    assert_eq!(
        (opened.dim(), opened.capacity(), opened.len(), opened.seq()),
        (made.dim(), made.capacity(), made.len(), made.seq())
    );
}

#[test]
fn a_header_slot_reads_back() {
    let mut image = vec![0xA5; 2 * 4096];
    let slot = Header {
        dim: 7,
        count: 8,
        last_lsn: u64::MAX,
        capacity: 9,
        seq: 10,
    };
    write_slot(&mut image, 1, &slot);
    assert_eq!(read_slot(&image, 1), Some(slot));
    assert_eq!(read_slot(&image, 0), None);
    for i in 4096..4096 + 52 {
        image[i] ^= 1;
        assert_eq!(read_slot(&image, 1), None, "byte {i}");
        image[i] ^= 1;
    }
}

#[test]
fn rows_do_not_touch_each_other() {
    let mut w = TupleStore::create(schema());
    w.write_row(Ordinal(1), &vec![(0, Value::Int(1))]).unwrap();
    for _ in 0..2 {
        w.write_row(Ordinal(4), &vec![(0, Value::Int(4))]).unwrap();
        w.delete_row(Ordinal(2)).unwrap();
        let r = w.reader();
        assert_eq!(r.get(Ordinal(1), &[0]).unwrap(), RowGet::Live(vec![Value::Int(1)]));
        assert_eq!(r.get(Ordinal(2), &[0]).unwrap(), RowGet::Deleted);
        assert_eq!(r.get(Ordinal(3), &[0]).unwrap(), RowGet::Missing);
        assert_eq!(r.get(Ordinal(4), &[0]).unwrap(), RowGet::Live(vec![Value::Int(4)]));
    }
}

#[test]
fn a_range_is_the_union_of_its_values() {
    let mut w = MetadataIndex::create(schema());
    for o in 0..9u32 {
        w.insert_row(Ordinal(o), &vec![(0, Value::Int((o % 4) as i64))]).unwrap();
    }
    w.remove_row(Ordinal(5)).unwrap();
    let r = w.reader();
    let mut union = Vec::new();
    for n in 0..3 {
        union.extend(r.lookup_eq(0, &Value::Int(n)).unwrap().to_vec());
    }
    union.sort();
    assert_eq!(r.lookup_range(0, RangeOp::Lt, &Value::Int(3)).unwrap().to_vec(), union);
    assert_eq!(union, vec![0, 1, 2, 4, 6, 8]);
}

#[test]
fn a_registry_is_sorted_and_merged_once() {
    let config = |id: u32| CollectionConfig {
        id,
        name: format!("c{id}"),
        capacity: 4,
        schema: schema(),
    };
    let given = [config(7), config(2), config(5)];
    let sorted = sorted_by_id(&given);
    assert_eq!(sorted, vec![config(2), config(5), config(7)]);
    let (registry, dirty) = merge(Vec::new(), false, &given).unwrap();
    assert_eq!((&registry, dirty), (&sorted, true));
    let (again, dirty) = merge(registry, true, &given).unwrap();
    assert_eq!((again, dirty), (sorted, false));
}

#[test]
fn float_patterns_are_told_apart() {
    let ordered = [
        f32::NEG_INFINITY,
        f32::MIN,
        -1.0,
        -0.0,
        0.0,
        f32::MIN_POSITIVE,
        1.0,
        f32::INFINITY,
    ];
    for (i, a) in ordered.iter().enumerate() {
        for (j, b) in ordered.iter().enumerate() {
            assert_eq!(precedes32(a.to_bits(), b.to_bits()), i < j, "{a} {b}");
        }
    }
    assert!(is_nan32(f32::NAN.to_bits()) && !is_nan32(f32::INFINITY.to_bits()));
    assert!(is_nan64((-f64::NAN).to_bits()) && !is_nan64(f64::MAX.to_bits()));
    for f in [0.0, -0.0, 1.0, -3.0, 4503599627370497.0, 1e300, f64::MAX] {
        assert!(is_whole64(f64::to_bits(f)), "{f}");
    }
    for f in [0.5, -1.25, 1e-300, 4503599627370495.5, f64::NAN, f64::INFINITY] {
        assert!(!is_whole64(f64::to_bits(f)), "{f}");
    }
}

#[test]
fn floats_are_equal_as_floats_are() {
    let values = [0.0, -0.0, 1.5, -1.5, f64::INFINITY, f64::NAN, f64::MIN_POSITIVE];
    for a in values {
        for b in values {
            let (x, y) = (f64::to_bits(a), f64::to_bits(b));
            assert_eq!(is_equal64(x, y), a == b, "{a} {b}");
            assert_eq!(Value::Float(x) == Value::Float(y), a == b, "{a} {b}");
            assert_eq!(Literal::Float(x) == Literal::Float(y), a == b, "{a} {b}");
            let (p, q) = (a as f32, b as f32);
            let (x, y) = (p.to_bits(), q.to_bits());
            assert_eq!(is_equal32(x, y), p == q, "{p} {q}");
            assert_eq!(Literal::Vector(vec![x]) == Literal::Vector(vec![y]), p == q, "{p} {q}");
            assert_eq!(Const::Vector(vec![0, x]) == Const::Vector(vec![0, y]), p == q, "{p} {q}");
        }
    }
    assert!(Literal::Vector(vec![0]) != Literal::Vector(vec![0, 0]));
    assert!(Literal::Str("a".into()) == Literal::Str("a".into()));
    assert!(Literal::Int(1) != Literal::Float(1));
    assert!(Value::Text("a".into()) != Value::Text("b".into()));
    assert!(Const::Str("a".into()) != Const::Vector(vec![]));
}

#[test]
fn a_float_range_is_the_union_of_its_values() {
    let schema = Schema::from_columns(vec![
        ColumnSpec::Vector { name: "v".into(), dim: Dim::new(1).unwrap() },
        ColumnSpec::Scalar { name: "f".into(), ty: ColumnType::Float },
    ])
    .unwrap();
    let mut w = MetadataIndex::create(schema);
    let floats = [-1.5, -0.0, 0.0, 2.0, f64::NEG_INFINITY];
    for (o, f) in floats.iter().enumerate() {
        w.insert_row(Ordinal(o as u32), &vec![(0, Value::Float(f.to_bits()))]).unwrap();
    }
    let r = w.reader();
    let mut union = Vec::new();
    for f in [-1.5, -0.0, f64::NEG_INFINITY] {
        union.extend(r.lookup_eq(0, &Value::Float(f64::to_bits(f))).unwrap().to_vec());
    }
    union.sort();
    let zero = Value::Float(0.0f64.to_bits());
    assert_eq!(r.lookup_range(0, RangeOp::Le, &zero).unwrap().to_vec(), union);
    assert_eq!(union, vec![0, 1, 2, 4]);
}
