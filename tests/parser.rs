use raycaster::map::TileMap;
use raycaster::parser::{decimal_string, parse_field, parse_size, ParseError};

#[test]
fn test_parse_fiels() {
    let field = "name = test".to_string();
    let result = parse_field(field, &1);
    assert!(result.is_ok());
    let result = result.unwrap();
    assert_eq!(result.0, "name");
    assert_eq!(result.1, "test");
}

#[test]
fn test_parse_fiels_non_ascii() {
    let field = "name = test äöü".to_string();
    let result = parse_field(field, &1);
    assert!(result.is_ok());
    let result = result.unwrap();
    assert_eq!(result.0, "name");
    assert_eq!(result.1, "test äöü");
}

#[test]
fn test_parse_fiels_no_value() {
    let field = "name =".to_string();
    let result = parse_field(field, &1);
    assert!(result.is_err());
}

#[test]
fn test_parse_fiels_no_key() {
    let field = "= test".to_string();
    let result = parse_field(field, &1);
    assert!(result.is_err());
}

#[test]
fn test_parse_fiels_no_key_no_value() {
    let field = "=".to_string();
    let result = parse_field(field, &1);
    assert!(result.is_err());
}

#[test]
fn test_parse_fiels_no_key_no_value_no_equals() {
    let field = "".to_string();
    let result = parse_field(field, &1);
    assert!(result.is_err());
}

#[test]
fn test_parse_size() {
    let size = "10x10";
    let result = parse_size(size, &1);
    assert!(result.is_ok());
    let result = result.unwrap();
    assert_eq!(result.0, 10);
    assert_eq!(result.1, 10);
}

#[test]
fn test_parse_size_invalid() {
    let size = "10x10x10";
    let result = parse_size(size, &1);
    assert!(result.is_err());
}

#[test]
fn test_parse_size_invalid2() {
    let size = "10x";
    let result = parse_size(size, &1);
    assert!(result.is_err());
}

#[test]
fn test_parse_size_invalid3() {
    let size = "x10";
    let result = parse_size(size, &1);
    assert!(result.is_err());
}

fn lines(text: &[&str]) -> Vec<String> {
    text.iter().map(|l| l.to_string()).collect()
}

fn format_error(r: Result<TileMap, ParseError>) -> (u32, String) {
    match r {
        Err(ParseError::InvalidFormat(d)) => (d.line, d.message),
        Err(ParseError::FileError(e)) => panic!("unexpected file error {:?}", e),
        Ok(_) => panic!("expected a format error"),
    }
}

#[test]
fn field_whitespace_is_trimmed_on_both_sides() {
    let (k, v) = parse_field("  size\t=  3x4  ".to_string(), &7).unwrap();
    assert_eq!(k, "size");
    assert_eq!(v, "3x4");
}

#[test]
fn field_splits_at_first_equals() {
    let (k, v) = parse_field("a = b = c".to_string(), &1).unwrap();
    assert_eq!(k, "a");
    assert_eq!(v, "b = c");
}

#[test]
fn field_error_carries_line_and_message() {
    match parse_field("   =   ".to_string(), &12) {
        Err(ParseError::InvalidFormat(d)) => {
            assert_eq!(d.line, 12);
            assert_eq!(d.message, "Invalid field format");
        }
        _ => panic!("expected a format error"),
    }
}

#[test]
fn size_rejects_zero_and_signs() {
    assert!(parse_size("0x5", &1).is_err());
    assert!(parse_size("5x0", &1).is_err());
    assert!(parse_size("+5x5", &1).is_err());
    assert!(parse_size("5 x5", &1).is_err());
    assert_eq!(parse_size("007x3", &1).unwrap(), (7, 3));
}

#[test]
fn size_rejects_tile_count_overflow() {
    assert!(parse_size("99999999999999999999x1", &1).is_err());
    assert!(parse_size("4294967296x4294967296", &1).is_err());
}

#[test]
fn round_trip_tiles_in_row_major_order() {
    let text = lines(&["name = demo", "size = 3x2", "---", "0 1 2", "3 4 5"]);
    let map = TileMap::parse(&text, 64).unwrap();
    assert_eq!(map.get_name(), "demo");
    assert_eq!(map.get_width(), 3);
    assert_eq!(map.get_height(), 2);
    assert_eq!(map.get_tile_size(), 64);
    assert_eq!(map.get_origin(), (0, 0));
    for y in 0..2 {
        for x in 0..3 {
            assert_eq!(map.tile_at(x, y) as usize, y * 3 + x);
        }
    }
}

#[test]
fn tokens_may_span_lines_freely() {
    let text = lines(&["size = 2x2", "name = a", "---", "", "  7\t+8  255", "0   "]);
    let map = TileMap::parse(&text, 1).unwrap();
    assert_eq!(map.tile_at(0, 0), 7);
    assert_eq!(map.tile_at(1, 0), 8);
    assert_eq!(map.tile_at(0, 1), 255);
    assert_eq!(map.tile_at(1, 1), 0);
}

#[test]
fn duplicate_keys_last_one_wins() {
    let text = lines(&["name = first", "size = 9x9", "name = second", "size = 1x1", "---", "1"]);
    let map = TileMap::parse(&text, 1).unwrap();
    assert_eq!(map.get_name(), "second");
    assert_eq!(map.get_width(), 1);
}

#[test]
fn unknown_keys_are_ignored() {
    let text = lines(&["author = someone", "name = x", "size = 1x1", "---", "0"]);
    assert!(TileMap::parse(&text, 1).is_ok());
}

#[test]
fn not_enough_tiles_reported_at_end() {
    let text = lines(&["name = x", "size = 2x2", "---", "0 1", "1"]);
    let (line, message) = format_error(TileMap::parse(&text, 1));
    assert_eq!(line, 5);
    assert_eq!(message, "Not enough tiles, expected 4 but got 3");
}

#[test]
fn too_many_tiles_reported_at_overflow_line() {
    let text = lines(&["name = x", "size = 2x2", "---", "0 1", "1 0 1", "", ""]);
    let (line, message) = format_error(TileMap::parse(&text, 1));
    assert_eq!(line, 5);
    assert_eq!(message, "Too many tiles");
}

#[test]
fn invalid_tile_reported_at_its_line() {
    let text = lines(&["name = x", "size = 2x2", "---", "0 1", "1 256"]);
    let (line, message) = format_error(TileMap::parse(&text, 1));
    assert_eq!(line, 5);
    assert_eq!(message, "Invalid tile format");
    let text = lines(&["name = x", "size = 1x1", "---", "-1"]);
    assert_eq!(format_error(TileMap::parse(&text, 1)).1, "Invalid tile format");
}

#[test]
fn missing_separator() {
    let text = lines(&["name = x", "size = 1x1"]);
    assert_eq!(format_error(TileMap::parse(&text, 1)), (2, "Map separator not found".to_string()));
    assert_eq!(format_error(TileMap::parse(&Vec::new(), 1)), (0, "Map separator not found".to_string()));
}

#[test]
fn bad_header_line() {
    let text = lines(&["name = x", "no equals here", "---"]);
    assert_eq!(format_error(TileMap::parse(&text, 1)), (2, "Invalid field format".to_string()));
}

#[test]
fn missing_required_fields() {
    let text = lines(&["size = 1x1", "", "---", "0"]);
    assert_eq!(format_error(TileMap::parse(&text, 1)).1, "Invalid field format");
    let text = lines(&["size = 1x1", "---", "0"]);
    assert_eq!(format_error(TileMap::parse(&text, 1)), (2, "Missing name field".to_string()));
    let text = lines(&["name = x", "---", "0"]);
    assert_eq!(format_error(TileMap::parse(&text, 1)), (2, "Missing size field".to_string()));
    let text = lines(&["name = x", "size = 1y1", "---", "0"]);
    assert_eq!(format_error(TileMap::parse(&text, 1)), (3, "Invalid size format".to_string()));
}

#[test]
fn decimal_text() {
    assert_eq!(decimal_string(0), "0");
    assert_eq!(decimal_string(9), "9");
    assert_eq!(decimal_string(10), "10");
    assert_eq!(decimal_string(4096), "4096");
    assert_eq!(decimal_string(usize::MAX), usize::MAX.to_string());
}

#[test]
fn describe_format_error() {
    let e = ParseError::InvalidFormat(raycaster::parser::ParseErrorDetails {
        line: 3,
        message: "Too many tiles".to_string(),
    });
    assert_eq!(e.describe(), "Invalid format: Too many tiles\n at line 3");
}

#[test]
fn describe_file_error() {
    let e = ParseError::FileError(std::io::Error::new(std::io::ErrorKind::Other, "boom"));
    assert_eq!(e.describe(), "File error: boom");
}

#[test]
fn describe_map() {
    let text = lines(&["name = small", "size = 2x2", "---", "0 1", "12 0"]);
    let map = TileMap::parse(&text, 1).unwrap();
    assert_eq!(map.describe(), "name: small, width: 2, height: 2\n0 1 \n12 0 \n");
}

#[test]
fn described_rows_parse_back() {
    let text = lines(&["name = r", "size = 3x2", "---", "9 0 1", "255 7 0"]);
    let map = TileMap::parse(&text, 8).unwrap();
    let described = map.describe();
    let mut again = lines(&["size = 3x2", "name = r", "---"]);
    for row in described.lines().skip(1) {
        again.push(row.to_string());
    }
    let copy = TileMap::parse(&again, 8).unwrap();
    for y in 0..2 {
        for x in 0..3 {
            assert_eq!(copy.tile_at(x, y), map.tile_at(x, y));
        }
    }
    assert_eq!(copy.tile_at(0, 1), 255);
}
