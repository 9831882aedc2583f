use backup_deduplicator::utils::{decode_hex, max, parse_path, random_name, seconds_since_epoch, to_relative, DecodeHexError, LexicalAbsolute, ParsePathKind, ParsedPath};

fn names(parts: &[&str]) -> Vec<String> {
    parts.iter().map(|s| s.to_string()).collect()
}

#[test]
fn decode_hex_reads_pairs() {
    assert_eq!(decode_hex("deadbeef").unwrap(), vec![0xde, 0xad, 0xbe, 0xef]);
}

#[test]
fn decode_hex_accepts_upper_case_and_empty() {
    assert_eq!(decode_hex("00FF7a").unwrap(), vec![0x00, 0xff, 0x7a]);
    assert_eq!(decode_hex("").unwrap(), Vec::<u8>::new());
}

#[test]
fn decode_hex_rejects_signs_and_non_ascii() {
    assert_eq!(decode_hex("+f0a"), Err(DecodeHexError::InvalidDigit));
    assert_eq!(decode_hex("é"), Err(DecodeHexError::InvalidDigit));
    assert_eq!(decode_hex("aé0"), Err(DecodeHexError::InvalidDigit));
}

#[test]
fn decode_hex_rejects_odd_length() {
    assert_eq!(decode_hex("abc"), Err(DecodeHexError::InvalidLength));
}

#[test]
fn decode_hex_rejects_invalid_digits() {
    assert_eq!(decode_hex("zz"), Err(DecodeHexError::InvalidDigit));
    assert_eq!(decode_hex("0g"), Err(DecodeHexError::InvalidDigit));
    assert_eq!(decode_hex("-1"), Err(DecodeHexError::InvalidDigit));
    assert_eq!(decode_hex("++"), Err(DecodeHexError::InvalidDigit));
}

#[test]
fn max_picks_larger() {
    assert_eq!(max(3, 7), 7);
    assert_eq!(max(7, 3), 7);
    assert_eq!(max(5, 5), 5);
}

#[test]
fn to_relative_strips_base() {
    let path = names(&["/", "a", "b", "c"]);
    assert_eq!(to_relative(&path, &names(&["/", "a"])), Some(names(&["b", "c"])));
    assert_eq!(to_relative(&path, &names(&["/", "x"])), None);
    assert_eq!(to_relative(&names(&["/", "a"]), &path), None);
    assert_eq!(to_relative(&path, &path), Some(Vec::new()));
}

#[test]
fn lexical_absolute_resolves_parent_components() {
    let path = names(&["/", "a", "b", "..", "c"]);
    assert_eq!(path.to_lexical_absolute(&names(&["/", "work"])), names(&["/", "a", "c"]));
}

#[test]
fn lexical_absolute_starts_relative_paths_at_working_directory() {
    let path = names(&[".", "x", "..", "..", "y"]);
    assert_eq!(path.to_lexical_absolute(&names(&["/", "home", "me"])), names(&["/", "home", "y"]));
    let up = names(&["..", "..", ".."]);
    assert_eq!(up.to_lexical_absolute(&names(&["/", "a"])), names(&["/"]));
}

#[test]
fn parse_path_by_kind() {
    let wd = names(&["/", "w"]);
    let p = names(&["d", "..", "e"]);
    match parse_path(&p, ParsePathKind::Direct, &wd) {
        ParsedPath::Ready(r) => assert_eq!(r, p),
        _ => panic!("direct path must be ready"),
    }
    match parse_path(&p, ParsePathKind::AbsoluteNonExisting, &wd) {
        ParsedPath::Ready(r) => assert_eq!(r, names(&["/", "w", "e"])),
        _ => panic!("lexical path must be ready"),
    }
    match parse_path(&p, ParsePathKind::AbsoluteExisting, &wd) {
        ParsedPath::Canonicalize(r) => assert_eq!(r, p),
        _ => panic!("existing path must be canonicalized"),
    }
}

#[test]
fn random_name_has_prefix_and_alphanumeric_suffix() {
    let name = random_name("bdd_", 12);
    assert_eq!(name.len(), 16);
    assert!(name.starts_with("bdd_"));
    assert!(name[4..].chars().all(|c| c.is_ascii_alphanumeric()));
}

#[test]
fn seconds_since_epoch_or_zero() {
    assert_eq!(seconds_since_epoch(Some(1_700_000_000)), 1_700_000_000);
    assert_eq!(seconds_since_epoch(None), 0);
}
