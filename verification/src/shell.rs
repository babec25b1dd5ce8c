//! Decisions of the windowing shell that do not need a window: command-line theme
//! choice, and decoding of packed message parameters.
use vstd::prelude::*;
use crate::view::Key;

verus! {

/// Which theme to use.
#[derive(Debug, Clone, Copy, PartialEq, Eq, Structural, Default)]
pub enum ThemePreference {
    /// Follow the system "default app mode" setting, including live changes.
    #[default]
    System,
    Dark,
    Light,
}

/// ASCII lower-casing of one character; other characters are unchanged.
pub open spec fn ascii_lower(c: char) -> char {
    if 'A' <= c && c <= 'Z' {
        ((c as u32) + 32) as char
    } else {
        c
    }
}

/// ASCII lower-casing of a string.
pub open spec fn lower(s: Seq<char>) -> Seq<char> {
    s.map_values(|c: char| ascii_lower(c))
}

/// The preference a command-line value names.
pub open spec fn theme_named(s: Seq<char>) -> ThemePreference {
    if lower(s) == seq!['d', 'a', 'r', 'k'] {
        ThemePreference::Dark
    } else if lower(s) == seq!['l', 'i', 'g', 'h', 't'] {
        ThemePreference::Light
    } else {
        ThemePreference::System
    }
}

fn ascii_lower_byte(b: u8) -> (r: u8)
    ensures
        r == (if 65 <= b <= 90 { b + 32 } else { b as int }),
{
    if 65 <= b && b <= 90 {
        b + 32
    } else {
        b
    }
}

/// Whether the bytes of `s`, ASCII-lower-cased, are exactly `word`
/// (which is lower-case ASCII).
fn lower_equals(s: &[u8], word: &[u8]) -> (r: bool)
    ensures
        r == (s@.len() == word@.len() && forall|i: int|
            0 <= i < s@.len() ==> (if 65 <= s@[i] <= 90 { s@[i] + 32 } else { s@[i] as int })
                == word@[i]),
{
    if s.len() != word.len() {
        return false;
    }
    let mut i: usize = 0;
    while i < s.len()
        invariant
            s@.len() == word@.len(),
            i <= s@.len(),
            forall|j: int|
                0 <= j < i ==> (if 65 <= s@[j] <= 90 { s@[j] + 32 } else { s@[j] as int })
                    == word@[j],
        decreases s@.len() - i,
    {
        if ascii_lower_byte(s[i]) != word[i] {
            return false;
        }
        i = i + 1;
    }
    true
}

proof fn lemma_lower_char_byte(c: char, w: char)
    requires
        '\0' <= c <= '\u{7f}',
        (w as u32) < 128,
    ensures
        (ascii_lower(c) == w) == ((if 65 <= (c as u8) <= 90 {
            (c as u8) + 32
        } else {
            (c as u8) as int
        }) == (w as u32)),
{
}

/// Whether ASCII `chars` lower-case to `word`, given their bytes `bytes`.
proof fn lemma_lower_matches(chars: Seq<char>, bytes: Seq<u8>, word: Seq<char>, wbytes: Seq<u8>)
    requires
        vstd::utf8::is_ascii_chars(chars),
        bytes.len() == chars.len(),
        forall|i: int| 0 <= i < chars.len() ==> #[trigger] chars[i] as u8 == bytes[i],
        wbytes.len() == word.len(),
        forall|i: int|
            0 <= i < word.len() ==> (#[trigger] word[i] as u32) < 128 && word[i] as u32 == wbytes[i],
    ensures
        (lower(chars) == word) == (bytes.len() == wbytes.len() && forall|i: int|
            0 <= i < bytes.len() ==> (if 65 <= bytes[i] <= 90 {
                bytes[i] + 32
            } else {
                bytes[i] as int
            }) == wbytes[i]),
{
    if lower(chars) == word {
        assert forall|i: int| 0 <= i < bytes.len() implies (if 65 <= bytes[i] <= 90 {
            bytes[i] + 32
        } else {
            bytes[i] as int
        }) == wbytes[i] by {
            assert(lower(chars)[i] == word[i]);
            lemma_lower_char_byte(chars[i], word[i]);
        }
    }
    if bytes.len() == wbytes.len() && forall|i: int|
        0 <= i < bytes.len() ==> (if 65 <= bytes[i] <= 90 {
            bytes[i] + 32
        } else {
            bytes[i] as int
        }) == wbytes[i] {
        assert(chars.len() == word.len());
        assert forall|i: int| 0 <= i < chars.len() implies lower(chars)[i] == word[i] by {
            assert((word[i] as u32) < 128 && word[i] as u32 == wbytes[i]);
            assert(chars[i] as u8 == bytes[i]);
            lemma_lower_char_byte(chars[i], word[i]);
        }
        assert(lower(chars) =~= word);
    }
}

impl ThemePreference {
    /// Parse a command-line value, ignoring ASCII case. Unknown values fall back to
    /// `System`.
    pub fn parse(s: &str) -> (r: ThemePreference)
        ensures
            r == theme_named(s@),
    {
        let dark_word: [u8; 4] = [100, 97, 114, 107];
        let light_word: [u8; 5] = [108, 105, 103, 104, 116];
        let ghost dark = seq!['d', 'a', 'r', 'k'];
        let ghost light = seq!['l', 'i', 'g', 'h', 't'];
        if !s.is_ascii() {
            proof {
                let k = choose|k: int| 0 <= k < s@.len() && !('\0' <= #[trigger] s@[k] <= '\u{7f}');
                assert(lower(s@)[k] == s@[k]);
                assert(lower(s@).len() == s@.len());
                assert(dark.len() == 4 && light.len() == 5);
                if lower(s@) == dark {
                    assert(lower(s@)[k] == dark[k]);
                    assert(k == 0 || k == 1 || k == 2 || k == 3);
                }
                if lower(s@) == light {
                    assert(lower(s@)[k] == light[k]);
                    assert(k == 0 || k == 1 || k == 2 || k == 3 || k == 4);
                }
            }
            return ThemePreference::System;
        }
        let b = s.as_bytes();
        proof {
            vstd::utf8::is_ascii_chars_encode_utf8(s@);
            lemma_lower_matches(s@, b@, dark, dark_word@);
            lemma_lower_matches(s@, b@, light, light_word@);
        }
        if lower_equals(b, &dark_word) {
            ThemePreference::Dark
        } else if lower_equals(b, &light_word) {
            ThemePreference::Light
        } else {
            ThemePreference::System
        }
    }
}

/// Resolve a preference to dark (true) or light, given what the system setting
/// currently says.
pub fn resolve_dark(pref: ThemePreference, system_prefers_dark: bool) -> (r: bool)
    ensures
        r == match pref {
            ThemePreference::System => system_prefers_dark,
            ThemePreference::Dark => true,
            ThemePreference::Light => false,
        },
{
    match pref {
        ThemePreference::System => system_prefers_dark,
        ThemePreference::Dark => true,
        ThemePreference::Light => false,
    }
}

/// Startup options for the shell.
#[derive(Debug, Clone, Copy, Default)]
pub struct ShellOptions {
    pub theme: ThemePreference,
}

/// Why the shell could not run.
#[derive(Debug)]
pub enum ShellError {
    /// The windowing shell only runs on Windows.
    Unsupported,
}

/// The signed x and y client coordinates packed in the low and high 16-bit halves
/// of the low 32 bits of a message parameter.
pub fn lparam_xy(lp: isize) -> (r: (i32, i32))
    ensures
        r.0 == (lp as u16) as i16,
        r.1 == ((lp as u32) >> 16u32) as u16 as i16,
{
    let v = lp as u32;
    let x = v as u16 as i16 as i32;
    let y = (v >> 16) as u16 as i16 as i32;
    assert((lp as u32) as u16 == lp as u16) by (bit_vector);
    (x, y)
}

/// The table key a virtual-key code stands for, if any: up, down, page up, page
/// down, home and end.
pub fn key_for_vk(vk: u16) -> (r: Option<Key>)
    ensures
        r == (if vk == 0x26 {
            Some(Key::Up)
        } else if vk == 0x28 {
            Some(Key::Down)
        } else if vk == 0x21 {
            Some(Key::PageUp)
        } else if vk == 0x22 {
            Some(Key::PageDown)
        } else if vk == 0x24 {
            Some(Key::Home)
        } else if vk == 0x23 {
            Some(Key::End)
        } else {
            None
        }),
{
    if vk == 0x26 {
        Some(Key::Up)
    } else if vk == 0x28 {
        Some(Key::Down)
    } else if vk == 0x21 {
        Some(Key::PageUp)
    } else if vk == 0x22 {
        Some(Key::PageDown)
    } else if vk == 0x24 {
        Some(Key::Home)
    } else if vk == 0x23 {
        Some(Key::End)
    } else {
        None
    }
}

} // verus!
