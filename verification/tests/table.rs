use sm_logic::logic_gate::{IdSource, LogicGateMode};
use sm_logic::logic_unit::LogicUnit;
use sm_logic::table_parser::{
    bytes_eq, first_char_of, parse_raw_name, parse_u8_bytes, second_char_of, split_bytes, split_words,
    trim_bytes, TableError,
};
use sm_logic::utils::SignalName;

fn read(table: &str) -> Result<LogicUnit, TableError> {
    let mut ids = IdSource::new();
    LogicUnit::from_table(&mut ids, table.as_bytes())
}

#[test]
fn byte_helpers() {
    assert_eq!(split_bytes(b"a\tb\t\tc", b'\t'), vec![b"a".to_vec(), b"b".to_vec(), vec![], b"c".to_vec()]);
    assert_eq!(split_bytes(b"", b'\n'), vec![Vec::<u8>::new()]);
    assert_eq!(split_words(b"  x y\t z "), vec![b"x".to_vec(), b"y".to_vec(), b"z".to_vec()]);
    assert!(split_words(b" \t ").is_empty());
    assert_eq!(trim_bytes(b"[[12]]", b'[', b']'), b"12".to_vec());
    assert_eq!(trim_bytes(b"][", b'[', b']'), Vec::<u8>::new());
    assert!(bytes_eq(b"ab", b"ab"));
    assert!(!bytes_eq(b"ab", b"abc"));
}

#[test]
fn numbers_read_like_rust() {
    assert_eq!(parse_u8_bytes(b"0"), Some(0));
    assert_eq!(parse_u8_bytes(b"255"), Some(255));
    assert_eq!(parse_u8_bytes(b"+7"), Some(7));
    assert_eq!(parse_u8_bytes(b"256"), None);
    assert_eq!(parse_u8_bytes(b""), None);
    assert_eq!(parse_u8_bytes(b"+"), None);
    assert_eq!(parse_u8_bytes(b"-1"), None);
    assert_eq!(parse_u8_bytes(b"1x"), None);
    assert_eq!(parse_u8_bytes(b"007"), Some(7));
}

#[test]
fn raw_names_take_the_bit_index() {
    let map = vec![(b"\\A".to_vec(), SignalName('A', 0))];
    assert_eq!(parse_raw_name(&map, b"\\A"), Ok(SignalName('A', 0)));
    assert_eq!(parse_raw_name(&map, b"\\A [3]"), Ok(SignalName('A', 3)));
    assert_eq!(parse_raw_name(&map, b"\\B"), Err(TableError::UnknownPort));
    assert_eq!(parse_raw_name(&map, b"\\A [x]"), Err(TableError::BadIndex));
}

const INVERTER: &str = "top\tA\t\t\tpi\t\\A\n\
top\tY\t\t\tpo\t\\Y\n\
top\t$1\t$_NOT_\tA\tin\t\\A\n\
top\t$1\t$_NOT_\tY\tout\t\\Y\n";

#[test]
fn reads_a_single_gate() {
    let unit = read(INVERTER).unwrap();
    assert_eq!(unit.gates().len(), 1);
    assert_eq!(unit.gates()[0].mode, LogicGateMode::Nand);
    assert_eq!(unit.io.get_input(SignalName('A', 0)).ids, vec![1]);
    assert_eq!(unit.io.get_output(SignalName('Y', 0)).id, 1);
}

#[test]
fn wires_connect_cells() {
    let table = "top\tA\t\t\tpi\t\\A\n\
top\tY\t\t\tpo\t\\Y\n\
\n\
top\t$1\t$_AND_\tA\tin\t\\A\n\
top\t$1\t$_AND_\tB\tin\t\\A\n\
top\t$1\t$_AND_\tY\tout\t$w\n\
top\t$2\t$_XOR_\tA\tin\t$w\n\
top\t$2\t$_XOR_\tY\tout\t\\Y\n";
    let unit = read(table).unwrap();
    assert_eq!(unit.gates().len(), 2);
    assert_eq!(unit.gates()[0].mode, LogicGateMode::And);
    assert_eq!(unit.gates()[1].mode, LogicGateMode::Xor);
    assert_eq!(unit.gates()[0].children, vec![2]);
    assert_eq!(unit.io.get_input(SignalName('A', 0)).ids, vec![1, 1]);
    assert_eq!(unit.io.get_output(SignalName('Y', 0)).id, 2);
}

#[test]
fn flip_flop_cells_and_bus_ports() {
    let table = "top\tD\t\t\tpi\t{top.da top.db}\n\
top\t$f\t$_DFF_P_\tD\tin\ttop.da\n\
top\t$f\t$_DFF_P_\tC\tin\ttop.db\n";
    let unit = read(table).unwrap();
    assert_eq!(unit.gates().len(), 6);
    // words are numbered from the last: `top.db` is bit 0 of `d`, `top.da` bit 1 of `d`
    assert_eq!(unit.io.get_input(SignalName('d', 1)).ids, vec![3, 6]);
    assert_eq!(unit.io.get_input(SignalName('d', 0)).ids, vec![3, 4]);
}

#[test]
fn an_output_port_used_inside_drives_its_readers() {
    let table = "top\tA\t\t\tpi\t\\A\n\
top\tY\t\t\tpo\t\\Y\n\
top\t$1\t$_NOT_\tA\tin\t\\A\n\
top\t$1\t$_NOT_\tY\tout\t\\Y\n\
top\t$2\t$_NOT_\tA\tin\t\\Y\n";
    let unit = read(table).unwrap();
    assert_eq!(unit.gates()[0].children, vec![2]);
}

#[test]
fn each_error_has_its_input() {
    assert_eq!(read("a\tb\tc\n").err(), Some(TableError::MissingField));
    assert_eq!(read("top\tA\t\t\tpx\t\\A\n").err(), Some(TableError::BadDirection));
    assert_eq!(read("top\tA\t\t\tpi\tA\n").err(), Some(TableError::BadName));
    assert_eq!(read("top\t$1\t$_MUX_\tA\tin\t\\A\n").err(), Some(TableError::BadCellType));
    assert_eq!(read("top\t$1\t$_NOT_\tQ\tin\t\\A\n").err(), Some(TableError::BadPin));
    assert_eq!(read("top\t$1\t$_NOT_\t\tin\t\\A\n").err(), Some(TableError::BadPin));
    assert_eq!(read("top\t$1\t$_NOT_\tA\tinout\t\\A\n").err(), Some(TableError::BadPinType));
    assert_eq!(read("top\t$1\t$_NOT_\tA\tin\t \n").err(), Some(TableError::BadConnection));
    let unknown = "top\tA\t\t\tpi\t\\A\n\
top\t$1\t$_NOT_\tA\tin\t \\A\n";
    assert_eq!(read(unknown).err(), Some(TableError::UnknownPort));
    let index = "top\tA\t\t\tpi\t\\A\n\
top\t$1\t$_NOT_\tA\tin\t\\A [z]\n";
    assert_eq!(read(index).err(), Some(TableError::BadIndex));
    let undriven = "top\t$1\t$_NOT_\tA\tin\t$w\n";
    assert_eq!(read(undriven).err(), Some(TableError::UnknownDriver));
}

#[test]
fn empty_table_gives_empty_unit() {
    let unit = read("").unwrap();
    assert!(unit.gates().is_empty());
    assert!(unit.io.inputs.is_empty());
}

#[test]
fn signal_letters_are_characters() {
    // A port named by a non-ASCII character, a bus of such names, and a cell pin.
    let table = "top\tÄ\t\t\tpi\t\\Äx\n\
top\tq\t\t\tpo\t{ top.ßa top.ßb }\n\
top\t$1\t$_NOT_\tA\tin\t\\Äx\n\
top\t$1\t$_NOT_\tY\tout\ttop.ßb\n";
    let unit = read(table).unwrap();
    assert_eq!(unit.io.get_input(SignalName('Ä', 0)).ids, vec![1]);
    assert_eq!(unit.io.get_output(SignalName('ß', 0)).id, 1);
    assert!(matches!(read("top\tA\t\t\tpi\t\\\n"), Err(TableError::BadName)));
}

#[test]
fn words_split_at_unicode_white_space() {
    assert_eq!(
        split_words("a\u{00A0}b\u{3000}\u{2003}c\u{85}".as_bytes()),
        vec![b"a".to_vec(), b"b".to_vec(), b"c".to_vec()]
    );
    assert_eq!(split_words("x\u{2002}".as_bytes()), vec![b"x".to_vec()]);
    // Not white space: U+200B (zero width space) stays inside the word.
    assert_eq!(split_words("x\u{200B}y".as_bytes()), vec!["x\u{200B}y".as_bytes().to_vec()]);
}

#[test]
fn characters_are_decoded() {
    assert_eq!(first_char_of("é!".as_bytes()), Some('é'));
    assert_eq!(first_char_of("😀".as_bytes()), Some('😀'));
    assert_eq!(first_char_of(&[0xff, 0x41]), None);
    assert_eq!(second_char_of("\\€x".as_bytes()), Some('€'));
    assert_eq!(second_char_of("a".as_bytes()), None);
}
