//! The position helpers compared with straightforward byte-wise versions on
//! generated lines.

use asp_ls::location::line_at;
use asp_ls::state::{byte_to_utf16_col, string_at, utf16_col_to_byte, word_at};
use asp_ls::text::{str_eq_ignore_ascii_case, to_ascii_lowercase};

fn units_before(line: &str, byte_idx: usize) -> u32 {
    let mut units = 0u32;
    for (i, c) in line.char_indices() {
        if i >= byte_idx {
            break;
        }
        units += c.len_utf16() as u32;
    }
    units
}

fn byte_of_col(line: &str, col: u32) -> usize {
    let mut units = 0u32;
    for (byte_idx, c) in line.char_indices() {
        if units >= col {
            return byte_idx;
        }
        units += c.len_utf16() as u32;
    }
    line.len()
}

fn quoted_at(line: &str, col: u32) -> Option<(String, (usize, usize))> {
    let byte_idx = byte_of_col(line, col);
    let bytes = line.as_bytes();
    let mut i = 0;
    while i < bytes.len() {
        if bytes[i] != b'"' {
            i += 1;
            continue;
        }
        let start = i + 1;
        let mut end = start;
        while end < bytes.len() && bytes[end] != b'"' {
            end += 1;
        }
        if end >= bytes.len() {
            return None;
        }
        if byte_idx >= start && byte_idx <= end {
            return Some((line[start..end].to_string(), (start, end)));
        }
        i = end + 1;
    }
    None
}

fn ident_at(line: &str, col: u32) -> Option<(String, Option<String>)> {
    let byte_idx = byte_of_col(line, col);
    let bytes = line.as_bytes();
    let is_word = |b: u8| b.is_ascii_alphanumeric() || b == b'_';
    let mut start = byte_idx.min(line.len());
    while start > 0 && is_word(bytes[start - 1]) {
        start -= 1;
    }
    let mut end = start;
    while end < bytes.len() && is_word(bytes[end]) {
        end += 1;
    }
    if start == end {
        return None;
    }
    let word = line[start..end].to_string();
    let qualifier = if start > 0 && bytes[start - 1] == b'.' {
        let q_end = start - 1;
        let mut q_start = q_end;
        while q_start > 0 && is_word(bytes[q_start - 1]) {
            q_start -= 1;
        }
        if q_start < q_end { Some(line[q_start..q_end].to_string()) } else { None }
    } else {
        None
    };
    Some((word, qualifier))
}

const PIECES: &[&str] = &["a", "B_9", ".", "\"", " ", "é", "😀", "日本", "x.y", "\"q\"", "_", "rs.MoveNext", "\t", "-", "ß"];

struct Lcg(u64);

impl Lcg {
    fn next(&mut self) -> usize {
        self.0 = self.0.wrapping_mul(6364136223846793005).wrapping_add(1442695040888963407);
        (self.0 >> 33) as usize
    }
}

#[test]
fn position_helpers_agree_on_generated_lines() {
    let mut rng = Lcg(7);
    for _ in 0..1500 {
        let n = rng.next() % 10;
        let mut line = String::new();
        for _ in 0..n {
            line.push_str(PIECES[rng.next() % PIECES.len()]);
        }
        let units: u32 = line.chars().map(|c| c.len_utf16() as u32).sum();
        for b in 0..=line.len() + 2 {
            assert_eq!(byte_to_utf16_col(&line, b), units_before(&line, b), "{line:?} byte {b}");
        }
        for col in 0..=units + 2 {
            assert_eq!(utf16_col_to_byte(&line, col), byte_of_col(&line, col), "{line:?} col {col}");
            assert_eq!(string_at(&line, col), quoted_at(&line, col), "{line:?} col {col}");
            assert_eq!(word_at(&line, col), ident_at(&line, col), "{line:?} col {col}");
        }
    }
}

#[test]
fn lines_and_case_helpers_agree_with_str() {
    let pieces: &[&str] = &["a", "\n", "\r\n", "\r", " ", "Ä", "Z", "\n\n", "é", "\u{2028}"];
    let mut rng = Lcg(3);
    for _ in 0..2000 {
        let n = rng.next() % 10;
        let mut text = String::new();
        for _ in 0..n {
            text.push_str(pieces[rng.next() % pieces.len()]);
        }
        let count = text.lines().count();
        for k in 0..count + 2 {
            assert_eq!(line_at(&text, k), text.lines().nth(k).map(|l| l.to_string()), "{text:?} line {k}");
        }
        assert_eq!(to_ascii_lowercase(&text), text.to_ascii_lowercase());
        let upper = text.to_ascii_uppercase();
        assert_eq!(str_eq_ignore_ascii_case(&text, &upper), text.eq_ignore_ascii_case(&upper));
        assert_eq!(str_eq_ignore_ascii_case(&text, "a"), text.eq_ignore_ascii_case("a"));
    }
}
