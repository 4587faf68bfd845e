use rody::formatter::BlockFormatter;
use rody::selector::{
    push_token_channels, to_lower, white_space, CHANNEL_COUNT, PX, PY, PZ, VX, VY, VZ,
};

fn parse(selector: &str) -> Vec<u8> {
    BlockFormatter::parse_data_str(selector)
}

/// The same grammar written with the standard library's own splitting and
/// case folding.
fn parse_with_std(selector: &str) -> Vec<u8> {
    let mut data_index: Vec<u8> = Vec::new();
    for token in selector.split_whitespace() {
        match token.to_lowercase().as_str() {
            "_" => data_index.extend([0, 1, 2, 3, 4, 5]),
            "p" => data_index.extend([0, 1, 2]),
            "v" => data_index.extend([3, 4, 5]),
            "px" => data_index.push(0),
            "py" => data_index.push(1),
            "pz" => data_index.push(2),
            "vx" => data_index.push(3),
            "vy" => data_index.push(4),
            "vz" => data_index.push(5),
            _ => (),
        }
    }
    data_index
}

fn every_char() -> impl Iterator<Item = char> {
    (0u32..=0x10FFFF).filter_map(char::from_u32)
}

#[test]
fn channel_indices_are_position_then_velocity() {
    assert_eq!([PX, PY, PZ, VX, VY, VZ], [0, 1, 2, 3, 4, 5]);
    assert_eq!(CHANNEL_COUNT, 6);
}

#[test]
fn underscore_names_every_channel() {
    assert_eq!(parse("_"), vec![0, 1, 2, 3, 4, 5]);
}

#[test]
fn p_names_the_position() {
    assert_eq!(parse("p"), vec![0, 1, 2]);
}

#[test]
fn v_names_the_velocity() {
    assert_eq!(parse("v"), vec![3, 4, 5]);
}

#[test]
fn two_letter_tokens_name_one_channel() {
    assert_eq!(parse("px"), vec![0]);
    assert_eq!(parse("py"), vec![1]);
    assert_eq!(parse("pz"), vec![2]);
    assert_eq!(parse("vx"), vec![3]);
    assert_eq!(parse("vy"), vec![4]);
    assert_eq!(parse("vz"), vec![5]);
}

#[test]
fn tokens_are_read_without_regard_to_case() {
    assert_eq!(parse("P"), vec![0, 1, 2]);
    assert_eq!(parse("V"), vec![3, 4, 5]);
    assert_eq!(parse("PX"), vec![0]);
    assert_eq!(parse("Px"), vec![0]);
    assert_eq!(parse("pX"), vec![0]);
    assert_eq!(parse("vZ"), vec![5]);
    assert_eq!(parse("Vy pZ"), vec![4, 2]);
}

#[test]
fn empty_selector_names_nothing() {
    assert_eq!(parse(""), Vec::<u8>::new());
    assert_eq!(parse("   "), Vec::<u8>::new());
    assert_eq!(parse("\t\n\r"), Vec::<u8>::new());
}

#[test]
fn unknown_tokens_are_dropped() {
    assert_eq!(parse("q"), Vec::<u8>::new());
    assert_eq!(parse("pxx"), Vec::<u8>::new());
    assert_eq!(parse("xp"), Vec::<u8>::new());
    assert_eq!(parse("__"), Vec::<u8>::new());
    assert_eq!(parse("p_"), Vec::<u8>::new());
    assert_eq!(parse("pv"), Vec::<u8>::new());
    assert_eq!(parse("position"), Vec::<u8>::new());
    assert_eq!(parse("q _"), parse("_"));
    assert_eq!(parse("px q vz"), vec![0, 5]);
    assert_eq!(parse("px,py"), Vec::<u8>::new());
}

#[test]
fn channels_come_in_token_order() {
    assert_eq!(parse("vz px"), vec![5, 0]);
    assert_eq!(parse("v p"), vec![3, 4, 5, 0, 1, 2]);
    assert_eq!(parse("py _ vx"), vec![1, 0, 1, 2, 3, 4, 5, 3]);
}

#[test]
fn repeated_tokens_are_kept() {
    assert_eq!(parse("px px"), vec![0, 0]);
    assert_eq!(parse("p px"), vec![0, 1, 2, 0]);
    assert_eq!(parse("_ _"), vec![0, 1, 2, 3, 4, 5, 0, 1, 2, 3, 4, 5]);
}

#[test]
fn any_amount_of_white_space_separates_tokens() {
    assert_eq!(parse("  px   vy  "), vec![0, 4]);
    assert_eq!(parse("px\tvy\npz\r\nvx"), vec![0, 4, 2, 3]);
    assert_eq!(parse("\u{A0}px\u{2003}vy\u{3000}"), vec![0, 4]);
    assert_eq!(parse("px\u{85}py\u{1680}pz\u{2028}vx\u{2029}vy\u{202F}vz\u{205F}p"), vec![
        0, 1, 2, 3, 4, 5, 0, 1, 2
    ]);
}

#[test]
fn characters_that_are_no_white_space_do_not_separate() {
    assert_eq!(parse("px\u{200B}py"), Vec::<u8>::new());
    assert_eq!(parse("px\u{180E}py"), Vec::<u8>::new());
    assert_eq!(parse("px\u{1C}py"), Vec::<u8>::new());
    assert_eq!(parse("px\u{FEFF}"), Vec::<u8>::new());
}

#[test]
fn letters_outside_ascii_match_no_token() {
    assert_eq!(parse("\u{212A}"), Vec::<u8>::new());
    assert_eq!(parse("p\u{445}"), Vec::<u8>::new());
    assert_eq!(parse("\u{440}x"), Vec::<u8>::new());
    assert_eq!(parse("\u{FF50}\u{FF58}"), Vec::<u8>::new());
    assert_eq!(parse("\u{FF3F}"), Vec::<u8>::new());
}

#[test]
fn every_index_is_a_channel() {
    for selector in ["_", "p v _ vz", "PX q pY", "_ _ _ _", ""] {
        for index in parse(selector) {
            assert!(index < CHANNEL_COUNT);
        }
    }
}

#[test]
fn white_space_is_that_of_the_standard_library() {
    for c in every_char() {
        assert_eq!(white_space(c), c.is_whitespace(), "U+{:04X}", c as u32);
    }
}

#[test]
fn white_space_on_chosen_characters() {
    assert!(white_space(' '));
    assert!(white_space('\t'));
    assert!(white_space('\n'));
    assert!(white_space('\u{B}'));
    assert!(white_space('\u{C}'));
    assert!(white_space('\r'));
    assert!(white_space('\u{2000}'));
    assert!(white_space('\u{200A}'));
    assert!(!white_space('\u{8}'));
    assert!(!white_space('\u{E}'));
    assert!(!white_space('\u{1FFF}'));
    assert!(!white_space('\u{200B}'));
    assert!(!white_space('_'));
    assert!(!white_space('p'));
}

#[test]
fn to_lower_folds_ascii_capitals_only() {
    assert_eq!(to_lower('A'), 'a');
    assert_eq!(to_lower('P'), 'p');
    assert_eq!(to_lower('Z'), 'z');
    assert_eq!(to_lower('p'), 'p');
    assert_eq!(to_lower('_'), '_');
    assert_eq!(to_lower('@'), '@');
    assert_eq!(to_lower('['), '[');
    assert_eq!(to_lower('\u{C9}'), '\u{C9}');
    for c in every_char() {
        if c.is_ascii() {
            assert_eq!(to_lower(c), c.to_ascii_lowercase());
        } else {
            assert_eq!(to_lower(c), c);
        }
    }
}

#[test]
fn push_token_channels_appends() {
    let mut data_index: Vec<u8> = vec![4];
    push_token_channels(&vec!['P', 'z'], &mut data_index);
    assert_eq!(data_index, vec![4, 2]);
    push_token_channels(&vec!['v'], &mut data_index);
    assert_eq!(data_index, vec![4, 2, 3, 4, 5]);
    push_token_channels(&vec!['q'], &mut data_index);
    assert_eq!(data_index, vec![4, 2, 3, 4, 5]);
    push_token_channels(&Vec::new(), &mut data_index);
    assert_eq!(data_index, vec![4, 2, 3, 4, 5]);
    push_token_channels(&vec!['_'], &mut data_index);
    assert_eq!(data_index, vec![4, 2, 3, 4, 5, 0, 1, 2, 3, 4, 5]);
    push_token_channels(&vec!['p', 'x', 'x'], &mut data_index);
    assert_eq!(data_index.len(), 11);
}

#[test]
fn one_character_selectors_agree_with_the_standard_library() {
    for c in every_char() {
        let selector = c.to_string();
        assert_eq!(parse(&selector), parse_with_std(&selector), "U+{:04X}", c as u32);
    }
}

#[test]
fn first_characters_agree_with_the_standard_library() {
    let mut selector = String::new();
    for c in every_char() {
        for second in ['x', 'Y', ' '] {
            selector.clear();
            selector.push(c);
            selector.push(second);
            assert_eq!(parse(&selector), parse_with_std(&selector), "U+{:04X}", c as u32);
        }
    }
}

#[test]
fn second_characters_agree_with_the_standard_library() {
    let mut selector = String::new();
    for c in every_char() {
        for first in ['p', 'V', '_'] {
            selector.clear();
            selector.push(first);
            selector.push(c);
            assert_eq!(parse(&selector), parse_with_std(&selector), "U+{:04X}", c as u32);
        }
    }
}

#[test]
fn separators_agree_with_the_standard_library() {
    let mut selector = String::new();
    for c in every_char() {
        selector.clear();
        selector.push_str("px");
        selector.push(c);
        selector.push_str("vy");
        assert_eq!(parse(&selector), parse_with_std(&selector), "U+{:04X}", c as u32);
    }
}

#[test]
fn short_selectors_agree_with_the_standard_library() {
    let alphabet = [
        'p', 'P', 'v', 'V', 'x', 'Y', 'z', '_', 'q', ' ', '\t', '\u{A0}', '\u{3A3}', '\u{130}',
        '\u{212A}',
    ];
    let mut selector = String::new();
    for a in alphabet {
        for b in alphabet {
            for c in alphabet {
                for d in alphabet {
                    selector.clear();
                    selector.push(a);
                    selector.push(b);
                    selector.push(c);
                    selector.push(d);
                    assert_eq!(parse(&selector), parse_with_std(&selector), "{:?}", selector);
                }
            }
        }
    }
}
