use primorial_of_a_number::number::{BigNat, ParseNumberError};
use primorial_of_a_number::storage::{
    contents_for_write, number_from_contents, read_file_name, write_file_name, FileContents,
    ReadMode, WriteMode,
};

fn big(s: &str) -> BigNat {
    BigNat::from_decimal_str(s).unwrap()
}

#[test]
fn zero_and_one() {
    assert_eq!(BigNat::zero().to_decimal_string(), "0");
    assert_eq!(BigNat::one().to_decimal_string(), "1");
    assert_eq!(BigNat::zero().to_bytes_le(), vec![0]);
}

#[test]
fn bytes_are_little_endian() {
    assert_eq!(big("1125").to_bytes_le(), vec![101, 4]);
    assert_eq!(
        big("557940830126698960967415390").to_bytes_le(),
        vec![94, 182, 151, 24, 22, 110, 208, 1, 145, 132, 205, 1]
    );
    assert_eq!(BigNat::from_bytes_le(&[101, 4]).to_decimal_string(), "1125");
    assert_eq!(BigNat::from_bytes_le(&[]).to_decimal_string(), "0");
    assert_eq!(BigNat::from_bytes_le(&[7, 0, 0]).to_decimal_string(), "7");
}

#[test]
fn bytes_round_trip() {
    for s in ["0", "1", "255", "256", "4294967296", "19078266889580195013601891820992757757219839668357012055907516904309700014933909014729740190"] {
        let n = big(s);
        assert_eq!(BigNat::from_bytes_le(&n.to_bytes_le()).to_decimal_string(), s);
    }
}

#[test]
fn decimal_parsing_accepts_sign_and_separators() {
    assert_eq!(big("+123").to_decimal_string(), "123");
    assert_eq!(big("1_000_000").to_decimal_string(), "1000000");
    assert_eq!(big("0007").to_decimal_string(), "7");
}

#[test]
fn decimal_parsing_rejects_non_numbers() {
    for s in ["", "+", "++1", "_1", "12a", "-5", " 1", "1 "] {
        assert_eq!(BigNat::from_decimal_str(s).err(), Some(ParseNumberError), "text {:?}", s);
    }
}

#[test]
fn multiplication() {
    assert_eq!(big("4294967295").mul_small(4294967295).to_decimal_string(), "18446744065119617025");
    assert_eq!(big("123456789123456789").mul(&big("987654321987654321")).to_decimal_string(),
        "121932631356500531347203169112635269");
    assert_eq!(big("5").mul(&BigNat::zero()).to_decimal_string(), "0");
}

#[test]
fn file_names_match_between_modes() {
    assert_eq!(write_file_name(&WriteMode::Bin), Some("biguint_data.bin"));
    assert_eq!(write_file_name(&WriteMode::Txt), Some("biguint_base10.txt"));
    assert_eq!(write_file_name(&WriteMode::NoFile), None);
    assert_eq!(read_file_name(&ReadMode::Bin), write_file_name(&WriteMode::Bin));
    assert_eq!(read_file_name(&ReadMode::Txt), write_file_name(&WriteMode::Txt));
    assert_eq!(read_file_name(&ReadMode::NoFile), None);
}

#[test]
fn write_then_read_gives_back_the_number() {
    let n = big("30030");
    match contents_for_write(&n, &WriteMode::Bin) {
        Some(FileContents::Bin(b)) => {
            assert_eq!(b, vec![78, 117]);
            let (text, back) = number_from_contents(&FileContents::Bin(b)).unwrap();
            assert_eq!(text, "30030");
            assert_eq!(back.to_decimal_string(), "30030");
        }
        _ => panic!("binary contents expected"),
    }
    match contents_for_write(&n, &WriteMode::Txt) {
        Some(FileContents::Txt(s)) => {
            assert_eq!(s, "30030");
            let (text, back) = number_from_contents(&FileContents::Txt(s)).unwrap();
            assert_eq!(text, "30030");
            assert_eq!(back.to_decimal_string(), "30030");
        }
        _ => panic!("text contents expected"),
    }
    assert!(contents_for_write(&n, &WriteMode::NoFile).is_none());
}

#[test]
fn reading_text_that_is_not_a_number_fails() {
    assert!(number_from_contents(&FileContents::Txt(String::from("hello"))).is_err());
    assert!(number_from_contents(&FileContents::Txt(String::new())).is_err());
}
