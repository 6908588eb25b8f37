use claw_state::clock::clamp_millis;
use claw_state::clock::truncate_span;
use claw_state::text::characters;
use claw_state::text::decimal_of;
use claw_state::text::digits_of;
use claw_state::text::hexadecimal_of;
use claw_state::text::is_blank;
use claw_state::text::join;
use claw_state::text::lowercase_characters;
use claw_state::text::order_of;
use claw_state::text::padded_digits_of;
use claw_state::text::same_text;
use claw_state::text::split;
use claw_state::text::strip_prefix;
use claw_state::text::trim_end;
use claw_state::text::Order;
use std::cmp::Ordering;

const TEXTS: [&str; 12] = [
    "", " ", "a", "a,b", ",", "ab/", "//", "\u{a0}\t", "École", "z\u{10ffff}", "\u{fffd}", "a/b,/",
];

#[test]
fn text_functions_are_those_of_std() {
    for text in TEXTS {
        assert_eq!(characters(text), text.chars().collect::<Vec<char>>());
        assert_eq!(is_blank(text), text.trim().is_empty(), "{text:?}");
        assert_eq!(trim_end(text, '/'), text.trim_end_matches('/'));
        let pieces: Vec<&str> = text.split(',').collect();
        assert_eq!(split(text, ','), pieces);
        for other in TEXTS {
            assert_eq!(same_text(text, other), text == other);
            assert_eq!(
                strip_prefix(text, other),
                text.strip_prefix(other).map(str::to_string)
            );
            let order = match order_of(text, other) {
                Order::Before => Ordering::Less,
                Order::Same => Ordering::Equal,
                Order::After => Ordering::Greater,
            };
            assert_eq!(order, text.cmp(other), "{text:?} {other:?}");
        }
    }
}

#[test]
fn joining_is_undone_by_splitting() {
    let parts = vec!["x".to_string(), "".to_string(), "yz".to_string()];
    assert_eq!(join(&parts, ","), "x,,yz");
    assert_eq!(split(&join(&parts, ","), ','), parts);
    assert_eq!(join(&[], ","), "");
    assert_eq!(join(&parts[2..], " OR "), "yz");
}

#[test]
fn texts_are_lowered_character_by_character() {
    for text in ["", "AZaz@[09_", "ÉÇßẞ", "İK\u{212a}", "ΣΑΣ", "中文"] {
        let expected: Vec<char> = text.chars().flat_map(char::to_lowercase).collect();
        assert_eq!(lowercase_characters(text), expected);
    }
}

#[test]
fn numbers_are_written_in_digits() {
    for n in [0, 1, 9, 10, 15, 16, 255, 4096, u64::MAX / 7, u64::MAX] {
        assert_eq!(digits_of(n, 10), n.to_string());
        assert_eq!(digits_of(n, 16), format!("{n:x}"));
        assert_eq!(padded_digits_of(n, 16, 16), format!("{n:016x}"));
        assert_eq!(padded_digits_of(n, 16, 8), format!("{n:08x}"));
    }
    for n in [0, 7, -7, 123, i64::MAX, i64::MIN, -1] {
        assert_eq!(decimal_of(n), n.to_string());
    }
    let bytes: Vec<u8> = (0..=255).collect();
    let expected: String = bytes.iter().map(|byte| format!("{byte:02x}")).collect();
    assert_eq!(hexadecimal_of(&bytes), expected);
}

#[test]
fn spans_are_cut_to_fit() {
    assert_eq!(clamp_millis(None), 0);
    assert_eq!(clamp_millis(Some(12)), 12);
    assert_eq!(clamp_millis(Some(i64::MAX as u128 + 1)), i64::MAX);
    assert_eq!(truncate_span(None, 9), 9);
    assert_eq!(truncate_span(Some((1 << 64) + 3), 9), 3);
}

#[test]
fn blanks_are_the_white_space_of_unicode() {
    let blank = |c: char| -> bool {
        matches!(c as u32,
            0x09..=0x0d | 0x20 | 0x85 | 0xa0 | 0x1680 | 0x2000..=0x200a | 0x2028 | 0x2029
                | 0x202f | 0x205f | 0x3000)
    };
    for c in '\u{0}'..=char::MAX {
        let mut buffer = [0u8; 4];
        assert_eq!(is_blank(c.encode_utf8(&mut buffer)), blank(c), "{c:?}");
    }
}
