//! Windows-1251 (Cyrillic), the code page of every string that Stratum 2000
//! stores in its files.
//!
//! Bytes below 0x80 are ASCII; the upper half is a table whose last 64 rows
//! are the letters А..я. The one byte that the code page leaves undefined,
//! 0x98, decodes to U+0098, so that decoding is total and encoding a decoded
//! text gives back the same bytes. A character that the code page cannot
//! hold is written as `?`.

use vstd::prelude::*;
use crate::stdx::string_push;

verus! {

/// The character that a byte stands for.
pub open spec fn char_of(b: u8) -> char {
    if b < 0x80 {
        b as char
    } else {
        high_char(b)
    }
}

/// The upper half of the code page.
pub open spec fn high_char(b: u8) -> char {
    match b {
        0x80u8 => '\u{0402}',
        0x81u8 => '\u{0403}',
        0x82u8 => '\u{201A}',
        0x83u8 => '\u{0453}',
        0x84u8 => '\u{201E}',
        0x85u8 => '\u{2026}',
        0x86u8 => '\u{2020}',
        0x87u8 => '\u{2021}',
        0x88u8 => '\u{20AC}',
        0x89u8 => '\u{2030}',
        0x8Au8 => '\u{0409}',
        0x8Bu8 => '\u{2039}',
        0x8Cu8 => '\u{040A}',
        0x8Du8 => '\u{040C}',
        0x8Eu8 => '\u{040B}',
        0x8Fu8 => '\u{040F}',
        0x90u8 => '\u{0452}',
        0x91u8 => '\u{2018}',
        0x92u8 => '\u{2019}',
        0x93u8 => '\u{201C}',
        0x94u8 => '\u{201D}',
        0x95u8 => '\u{2022}',
        0x96u8 => '\u{2013}',
        0x97u8 => '\u{2014}',
        0x98u8 => '\u{0098}',
        0x99u8 => '\u{2122}',
        0x9Au8 => '\u{0459}',
        0x9Bu8 => '\u{203A}',
        0x9Cu8 => '\u{045A}',
        0x9Du8 => '\u{045C}',
        0x9Eu8 => '\u{045B}',
        0x9Fu8 => '\u{045F}',
        0xA0u8 => '\u{00A0}',
        0xA1u8 => '\u{040E}',
        0xA2u8 => '\u{045E}',
        0xA3u8 => '\u{0408}',
        0xA4u8 => '\u{00A4}',
        0xA5u8 => '\u{0490}',
        0xA6u8 => '\u{00A6}',
        0xA7u8 => '\u{00A7}',
        0xA8u8 => '\u{0401}',
        0xA9u8 => '\u{00A9}',
        0xAAu8 => '\u{0404}',
        0xABu8 => '\u{00AB}',
        0xACu8 => '\u{00AC}',
        0xADu8 => '\u{00AD}',
        0xAEu8 => '\u{00AE}',
        0xAFu8 => '\u{0407}',
        0xB0u8 => '\u{00B0}',
        0xB1u8 => '\u{00B1}',
        0xB2u8 => '\u{0406}',
        0xB3u8 => '\u{0456}',
        0xB4u8 => '\u{0491}',
        0xB5u8 => '\u{00B5}',
        0xB6u8 => '\u{00B6}',
        0xB7u8 => '\u{00B7}',
        0xB8u8 => '\u{0451}',
        0xB9u8 => '\u{2116}',
        0xBAu8 => '\u{0454}',
        0xBBu8 => '\u{00BB}',
        0xBCu8 => '\u{0458}',
        0xBDu8 => '\u{0405}',
        0xBEu8 => '\u{0455}',
        0xBFu8 => '\u{0457}',
        0xC0u8 => '\u{0410}',
        0xC1u8 => '\u{0411}',
        0xC2u8 => '\u{0412}',
        0xC3u8 => '\u{0413}',
        0xC4u8 => '\u{0414}',
        0xC5u8 => '\u{0415}',
        0xC6u8 => '\u{0416}',
        0xC7u8 => '\u{0417}',
        0xC8u8 => '\u{0418}',
        0xC9u8 => '\u{0419}',
        0xCAu8 => '\u{041A}',
        0xCBu8 => '\u{041B}',
        0xCCu8 => '\u{041C}',
        0xCDu8 => '\u{041D}',
        0xCEu8 => '\u{041E}',
        0xCFu8 => '\u{041F}',
        0xD0u8 => '\u{0420}',
        0xD1u8 => '\u{0421}',
        0xD2u8 => '\u{0422}',
        0xD3u8 => '\u{0423}',
        0xD4u8 => '\u{0424}',
        0xD5u8 => '\u{0425}',
        0xD6u8 => '\u{0426}',
        0xD7u8 => '\u{0427}',
        0xD8u8 => '\u{0428}',
        0xD9u8 => '\u{0429}',
        0xDAu8 => '\u{042A}',
        0xDBu8 => '\u{042B}',
        0xDCu8 => '\u{042C}',
        0xDDu8 => '\u{042D}',
        0xDEu8 => '\u{042E}',
        0xDFu8 => '\u{042F}',
        0xE0u8 => '\u{0430}',
        0xE1u8 => '\u{0431}',
        0xE2u8 => '\u{0432}',
        0xE3u8 => '\u{0433}',
        0xE4u8 => '\u{0434}',
        0xE5u8 => '\u{0435}',
        0xE6u8 => '\u{0436}',
        0xE7u8 => '\u{0437}',
        0xE8u8 => '\u{0438}',
        0xE9u8 => '\u{0439}',
        0xEAu8 => '\u{043A}',
        0xEBu8 => '\u{043B}',
        0xECu8 => '\u{043C}',
        0xEDu8 => '\u{043D}',
        0xEEu8 => '\u{043E}',
        0xEFu8 => '\u{043F}',
        0xF0u8 => '\u{0440}',
        0xF1u8 => '\u{0441}',
        0xF2u8 => '\u{0442}',
        0xF3u8 => '\u{0443}',
        0xF4u8 => '\u{0444}',
        0xF5u8 => '\u{0445}',
        0xF6u8 => '\u{0446}',
        0xF7u8 => '\u{0447}',
        0xF8u8 => '\u{0448}',
        0xF9u8 => '\u{0449}',
        0xFAu8 => '\u{044A}',
        0xFBu8 => '\u{044B}',
        0xFCu8 => '\u{044C}',
        0xFDu8 => '\u{044D}',
        0xFEu8 => '\u{044E}',
        0xFFu8 => '\u{044F}',
        _ => '?',
    }
}

/// The byte of a character, where the code page has one.
pub open spec fn byte_of(c: char) -> Option<u8> {
    if (c as u32) < 0x80 {
        Some(c as u8)
    } else {
        high_byte(c)
    }
}

pub open spec fn high_byte(c: char) -> Option<u8> {
    match c {
        '\u{0402}' => Some(0x80u8),
        '\u{0403}' => Some(0x81u8),
        '\u{201A}' => Some(0x82u8),
        '\u{0453}' => Some(0x83u8),
        '\u{201E}' => Some(0x84u8),
        '\u{2026}' => Some(0x85u8),
        '\u{2020}' => Some(0x86u8),
        '\u{2021}' => Some(0x87u8),
        '\u{20AC}' => Some(0x88u8),
        '\u{2030}' => Some(0x89u8),
        '\u{0409}' => Some(0x8Au8),
        '\u{2039}' => Some(0x8Bu8),
        '\u{040A}' => Some(0x8Cu8),
        '\u{040C}' => Some(0x8Du8),
        '\u{040B}' => Some(0x8Eu8),
        '\u{040F}' => Some(0x8Fu8),
        '\u{0452}' => Some(0x90u8),
        '\u{2018}' => Some(0x91u8),
        '\u{2019}' => Some(0x92u8),
        '\u{201C}' => Some(0x93u8),
        '\u{201D}' => Some(0x94u8),
        '\u{2022}' => Some(0x95u8),
        '\u{2013}' => Some(0x96u8),
        '\u{2014}' => Some(0x97u8),
        '\u{0098}' => Some(0x98u8),
        '\u{2122}' => Some(0x99u8),
        '\u{0459}' => Some(0x9Au8),
        '\u{203A}' => Some(0x9Bu8),
        '\u{045A}' => Some(0x9Cu8),
        '\u{045C}' => Some(0x9Du8),
        '\u{045B}' => Some(0x9Eu8),
        '\u{045F}' => Some(0x9Fu8),
        '\u{00A0}' => Some(0xA0u8),
        '\u{040E}' => Some(0xA1u8),
        '\u{045E}' => Some(0xA2u8),
        '\u{0408}' => Some(0xA3u8),
        '\u{00A4}' => Some(0xA4u8),
        '\u{0490}' => Some(0xA5u8),
        '\u{00A6}' => Some(0xA6u8),
        '\u{00A7}' => Some(0xA7u8),
        '\u{0401}' => Some(0xA8u8),
        '\u{00A9}' => Some(0xA9u8),
        '\u{0404}' => Some(0xAAu8),
        '\u{00AB}' => Some(0xABu8),
        '\u{00AC}' => Some(0xACu8),
        '\u{00AD}' => Some(0xADu8),
        '\u{00AE}' => Some(0xAEu8),
        '\u{0407}' => Some(0xAFu8),
        '\u{00B0}' => Some(0xB0u8),
        '\u{00B1}' => Some(0xB1u8),
        '\u{0406}' => Some(0xB2u8),
        '\u{0456}' => Some(0xB3u8),
        '\u{0491}' => Some(0xB4u8),
        '\u{00B5}' => Some(0xB5u8),
        '\u{00B6}' => Some(0xB6u8),
        '\u{00B7}' => Some(0xB7u8),
        '\u{0451}' => Some(0xB8u8),
        '\u{2116}' => Some(0xB9u8),
        '\u{0454}' => Some(0xBAu8),
        '\u{00BB}' => Some(0xBBu8),
        '\u{0458}' => Some(0xBCu8),
        '\u{0405}' => Some(0xBDu8),
        '\u{0455}' => Some(0xBEu8),
        '\u{0457}' => Some(0xBFu8),
        '\u{0410}' => Some(0xC0u8),
        '\u{0411}' => Some(0xC1u8),
        '\u{0412}' => Some(0xC2u8),
        '\u{0413}' => Some(0xC3u8),
        '\u{0414}' => Some(0xC4u8),
        '\u{0415}' => Some(0xC5u8),
        '\u{0416}' => Some(0xC6u8),
        '\u{0417}' => Some(0xC7u8),
        '\u{0418}' => Some(0xC8u8),
        '\u{0419}' => Some(0xC9u8),
        '\u{041A}' => Some(0xCAu8),
        '\u{041B}' => Some(0xCBu8),
        '\u{041C}' => Some(0xCCu8),
        '\u{041D}' => Some(0xCDu8),
        '\u{041E}' => Some(0xCEu8),
        '\u{041F}' => Some(0xCFu8),
        '\u{0420}' => Some(0xD0u8),
        '\u{0421}' => Some(0xD1u8),
        '\u{0422}' => Some(0xD2u8),
        '\u{0423}' => Some(0xD3u8),
        '\u{0424}' => Some(0xD4u8),
        '\u{0425}' => Some(0xD5u8),
        '\u{0426}' => Some(0xD6u8),
        '\u{0427}' => Some(0xD7u8),
        '\u{0428}' => Some(0xD8u8),
        '\u{0429}' => Some(0xD9u8),
        '\u{042A}' => Some(0xDAu8),
        '\u{042B}' => Some(0xDBu8),
        '\u{042C}' => Some(0xDCu8),
        '\u{042D}' => Some(0xDDu8),
        '\u{042E}' => Some(0xDEu8),
        '\u{042F}' => Some(0xDFu8),
        '\u{0430}' => Some(0xE0u8),
        '\u{0431}' => Some(0xE1u8),
        '\u{0432}' => Some(0xE2u8),
        '\u{0433}' => Some(0xE3u8),
        '\u{0434}' => Some(0xE4u8),
        '\u{0435}' => Some(0xE5u8),
        '\u{0436}' => Some(0xE6u8),
        '\u{0437}' => Some(0xE7u8),
        '\u{0438}' => Some(0xE8u8),
        '\u{0439}' => Some(0xE9u8),
        '\u{043A}' => Some(0xEAu8),
        '\u{043B}' => Some(0xEBu8),
        '\u{043C}' => Some(0xECu8),
        '\u{043D}' => Some(0xEDu8),
        '\u{043E}' => Some(0xEEu8),
        '\u{043F}' => Some(0xEFu8),
        '\u{0440}' => Some(0xF0u8),
        '\u{0441}' => Some(0xF1u8),
        '\u{0442}' => Some(0xF2u8),
        '\u{0443}' => Some(0xF3u8),
        '\u{0444}' => Some(0xF4u8),
        '\u{0445}' => Some(0xF5u8),
        '\u{0446}' => Some(0xF6u8),
        '\u{0447}' => Some(0xF7u8),
        '\u{0448}' => Some(0xF8u8),
        '\u{0449}' => Some(0xF9u8),
        '\u{044A}' => Some(0xFAu8),
        '\u{044B}' => Some(0xFBu8),
        '\u{044C}' => Some(0xFCu8),
        '\u{044D}' => Some(0xFDu8),
        '\u{044E}' => Some(0xFEu8),
        '\u{044F}' => Some(0xFFu8),
        _ => None,
    }
}

/// What `encode` writes for a character: its byte, or `?`.
pub open spec fn encoded_byte(c: char) -> u8 {
    match byte_of(c) {
        Some(b) => b,
        None => 0x3Fu8,
    }
}

/// The text that `decode` makes of some bytes.
pub open spec fn decoded(bytes: Seq<u8>) -> Seq<char> {
    bytes.map_values(|b: u8| char_of(b))
}

/// The bytes that `encode` makes of a text.
pub open spec fn encoded(text: Seq<char>) -> Seq<u8> {
    text.map_values(|c: char| encoded_byte(c))
}

/// Every character of the text has a byte in the code page.
pub open spec fn representable(text: Seq<char>) -> bool {
    forall|i: int| 0 <= i < text.len() ==> (#[trigger] byte_of(text[i])) is Some
}

fn high_char_exec(b: u8) -> (c: char)
    requires
        b >= 0x80,
    ensures
        c == high_char(b),
{
    match b {
        0x80u8 => '\u{0402}',
        0x81u8 => '\u{0403}',
        0x82u8 => '\u{201A}',
        0x83u8 => '\u{0453}',
        0x84u8 => '\u{201E}',
        0x85u8 => '\u{2026}',
        0x86u8 => '\u{2020}',
        0x87u8 => '\u{2021}',
        0x88u8 => '\u{20AC}',
        0x89u8 => '\u{2030}',
        0x8Au8 => '\u{0409}',
        0x8Bu8 => '\u{2039}',
        0x8Cu8 => '\u{040A}',
        0x8Du8 => '\u{040C}',
        0x8Eu8 => '\u{040B}',
        0x8Fu8 => '\u{040F}',
        0x90u8 => '\u{0452}',
        0x91u8 => '\u{2018}',
        0x92u8 => '\u{2019}',
        0x93u8 => '\u{201C}',
        0x94u8 => '\u{201D}',
        0x95u8 => '\u{2022}',
        0x96u8 => '\u{2013}',
        0x97u8 => '\u{2014}',
        0x98u8 => '\u{0098}',
        0x99u8 => '\u{2122}',
        0x9Au8 => '\u{0459}',
        0x9Bu8 => '\u{203A}',
        0x9Cu8 => '\u{045A}',
        0x9Du8 => '\u{045C}',
        0x9Eu8 => '\u{045B}',
        0x9Fu8 => '\u{045F}',
        0xA0u8 => '\u{00A0}',
        0xA1u8 => '\u{040E}',
        0xA2u8 => '\u{045E}',
        0xA3u8 => '\u{0408}',
        0xA4u8 => '\u{00A4}',
        0xA5u8 => '\u{0490}',
        0xA6u8 => '\u{00A6}',
        0xA7u8 => '\u{00A7}',
        0xA8u8 => '\u{0401}',
        0xA9u8 => '\u{00A9}',
        0xAAu8 => '\u{0404}',
        0xABu8 => '\u{00AB}',
        0xACu8 => '\u{00AC}',
        0xADu8 => '\u{00AD}',
        0xAEu8 => '\u{00AE}',
        0xAFu8 => '\u{0407}',
        0xB0u8 => '\u{00B0}',
        0xB1u8 => '\u{00B1}',
        0xB2u8 => '\u{0406}',
        0xB3u8 => '\u{0456}',
        0xB4u8 => '\u{0491}',
        0xB5u8 => '\u{00B5}',
        0xB6u8 => '\u{00B6}',
        0xB7u8 => '\u{00B7}',
        0xB8u8 => '\u{0451}',
        0xB9u8 => '\u{2116}',
        0xBAu8 => '\u{0454}',
        0xBBu8 => '\u{00BB}',
        0xBCu8 => '\u{0458}',
        0xBDu8 => '\u{0405}',
        0xBEu8 => '\u{0455}',
        0xBFu8 => '\u{0457}',
        0xC0u8 => '\u{0410}',
        0xC1u8 => '\u{0411}',
        0xC2u8 => '\u{0412}',
        0xC3u8 => '\u{0413}',
        0xC4u8 => '\u{0414}',
        0xC5u8 => '\u{0415}',
        0xC6u8 => '\u{0416}',
        0xC7u8 => '\u{0417}',
        0xC8u8 => '\u{0418}',
        0xC9u8 => '\u{0419}',
        0xCAu8 => '\u{041A}',
        0xCBu8 => '\u{041B}',
        0xCCu8 => '\u{041C}',
        0xCDu8 => '\u{041D}',
        0xCEu8 => '\u{041E}',
        0xCFu8 => '\u{041F}',
        0xD0u8 => '\u{0420}',
        0xD1u8 => '\u{0421}',
        0xD2u8 => '\u{0422}',
        0xD3u8 => '\u{0423}',
        0xD4u8 => '\u{0424}',
        0xD5u8 => '\u{0425}',
        0xD6u8 => '\u{0426}',
        0xD7u8 => '\u{0427}',
        0xD8u8 => '\u{0428}',
        0xD9u8 => '\u{0429}',
        0xDAu8 => '\u{042A}',
        0xDBu8 => '\u{042B}',
        0xDCu8 => '\u{042C}',
        0xDDu8 => '\u{042D}',
        0xDEu8 => '\u{042E}',
        0xDFu8 => '\u{042F}',
        0xE0u8 => '\u{0430}',
        0xE1u8 => '\u{0431}',
        0xE2u8 => '\u{0432}',
        0xE3u8 => '\u{0433}',
        0xE4u8 => '\u{0434}',
        0xE5u8 => '\u{0435}',
        0xE6u8 => '\u{0436}',
        0xE7u8 => '\u{0437}',
        0xE8u8 => '\u{0438}',
        0xE9u8 => '\u{0439}',
        0xEAu8 => '\u{043A}',
        0xEBu8 => '\u{043B}',
        0xECu8 => '\u{043C}',
        0xEDu8 => '\u{043D}',
        0xEEu8 => '\u{043E}',
        0xEFu8 => '\u{043F}',
        0xF0u8 => '\u{0440}',
        0xF1u8 => '\u{0441}',
        0xF2u8 => '\u{0442}',
        0xF3u8 => '\u{0443}',
        0xF4u8 => '\u{0444}',
        0xF5u8 => '\u{0445}',
        0xF6u8 => '\u{0446}',
        0xF7u8 => '\u{0447}',
        0xF8u8 => '\u{0448}',
        0xF9u8 => '\u{0449}',
        0xFAu8 => '\u{044A}',
        0xFBu8 => '\u{044B}',
        0xFCu8 => '\u{044C}',
        0xFDu8 => '\u{044D}',
        0xFEu8 => '\u{044E}',
        0xFFu8 => '\u{044F}',
        _ => '?',
    }
}

fn high_byte_exec(c: char) -> (r: Option<u8>)
    ensures
        r == high_byte(c),
{
    match c {
        '\u{0402}' => Some(0x80u8),
        '\u{0403}' => Some(0x81u8),
        '\u{201A}' => Some(0x82u8),
        '\u{0453}' => Some(0x83u8),
        '\u{201E}' => Some(0x84u8),
        '\u{2026}' => Some(0x85u8),
        '\u{2020}' => Some(0x86u8),
        '\u{2021}' => Some(0x87u8),
        '\u{20AC}' => Some(0x88u8),
        '\u{2030}' => Some(0x89u8),
        '\u{0409}' => Some(0x8Au8),
        '\u{2039}' => Some(0x8Bu8),
        '\u{040A}' => Some(0x8Cu8),
        '\u{040C}' => Some(0x8Du8),
        '\u{040B}' => Some(0x8Eu8),
        '\u{040F}' => Some(0x8Fu8),
        '\u{0452}' => Some(0x90u8),
        '\u{2018}' => Some(0x91u8),
        '\u{2019}' => Some(0x92u8),
        '\u{201C}' => Some(0x93u8),
        '\u{201D}' => Some(0x94u8),
        '\u{2022}' => Some(0x95u8),
        '\u{2013}' => Some(0x96u8),
        '\u{2014}' => Some(0x97u8),
        '\u{0098}' => Some(0x98u8),
        '\u{2122}' => Some(0x99u8),
        '\u{0459}' => Some(0x9Au8),
        '\u{203A}' => Some(0x9Bu8),
        '\u{045A}' => Some(0x9Cu8),
        '\u{045C}' => Some(0x9Du8),
        '\u{045B}' => Some(0x9Eu8),
        '\u{045F}' => Some(0x9Fu8),
        '\u{00A0}' => Some(0xA0u8),
        '\u{040E}' => Some(0xA1u8),
        '\u{045E}' => Some(0xA2u8),
        '\u{0408}' => Some(0xA3u8),
        '\u{00A4}' => Some(0xA4u8),
        '\u{0490}' => Some(0xA5u8),
        '\u{00A6}' => Some(0xA6u8),
        '\u{00A7}' => Some(0xA7u8),
        '\u{0401}' => Some(0xA8u8),
        '\u{00A9}' => Some(0xA9u8),
        '\u{0404}' => Some(0xAAu8),
        '\u{00AB}' => Some(0xABu8),
        '\u{00AC}' => Some(0xACu8),
        '\u{00AD}' => Some(0xADu8),
        '\u{00AE}' => Some(0xAEu8),
        '\u{0407}' => Some(0xAFu8),
        '\u{00B0}' => Some(0xB0u8),
        '\u{00B1}' => Some(0xB1u8),
        '\u{0406}' => Some(0xB2u8),
        '\u{0456}' => Some(0xB3u8),
        '\u{0491}' => Some(0xB4u8),
        '\u{00B5}' => Some(0xB5u8),
        '\u{00B6}' => Some(0xB6u8),
        '\u{00B7}' => Some(0xB7u8),
        '\u{0451}' => Some(0xB8u8),
        '\u{2116}' => Some(0xB9u8),
        '\u{0454}' => Some(0xBAu8),
        '\u{00BB}' => Some(0xBBu8),
        '\u{0458}' => Some(0xBCu8),
        '\u{0405}' => Some(0xBDu8),
        '\u{0455}' => Some(0xBEu8),
        '\u{0457}' => Some(0xBFu8),
        '\u{0410}' => Some(0xC0u8),
        '\u{0411}' => Some(0xC1u8),
        '\u{0412}' => Some(0xC2u8),
        '\u{0413}' => Some(0xC3u8),
        '\u{0414}' => Some(0xC4u8),
        '\u{0415}' => Some(0xC5u8),
        '\u{0416}' => Some(0xC6u8),
        '\u{0417}' => Some(0xC7u8),
        '\u{0418}' => Some(0xC8u8),
        '\u{0419}' => Some(0xC9u8),
        '\u{041A}' => Some(0xCAu8),
        '\u{041B}' => Some(0xCBu8),
        '\u{041C}' => Some(0xCCu8),
        '\u{041D}' => Some(0xCDu8),
        '\u{041E}' => Some(0xCEu8),
        '\u{041F}' => Some(0xCFu8),
        '\u{0420}' => Some(0xD0u8),
        '\u{0421}' => Some(0xD1u8),
        '\u{0422}' => Some(0xD2u8),
        '\u{0423}' => Some(0xD3u8),
        '\u{0424}' => Some(0xD4u8),
        '\u{0425}' => Some(0xD5u8),
        '\u{0426}' => Some(0xD6u8),
        '\u{0427}' => Some(0xD7u8),
        '\u{0428}' => Some(0xD8u8),
        '\u{0429}' => Some(0xD9u8),
        '\u{042A}' => Some(0xDAu8),
        '\u{042B}' => Some(0xDBu8),
        '\u{042C}' => Some(0xDCu8),
        '\u{042D}' => Some(0xDDu8),
        '\u{042E}' => Some(0xDEu8),
        '\u{042F}' => Some(0xDFu8),
        '\u{0430}' => Some(0xE0u8),
        '\u{0431}' => Some(0xE1u8),
        '\u{0432}' => Some(0xE2u8),
        '\u{0433}' => Some(0xE3u8),
        '\u{0434}' => Some(0xE4u8),
        '\u{0435}' => Some(0xE5u8),
        '\u{0436}' => Some(0xE6u8),
        '\u{0437}' => Some(0xE7u8),
        '\u{0438}' => Some(0xE8u8),
        '\u{0439}' => Some(0xE9u8),
        '\u{043A}' => Some(0xEAu8),
        '\u{043B}' => Some(0xEBu8),
        '\u{043C}' => Some(0xECu8),
        '\u{043D}' => Some(0xEDu8),
        '\u{043E}' => Some(0xEEu8),
        '\u{043F}' => Some(0xEFu8),
        '\u{0440}' => Some(0xF0u8),
        '\u{0441}' => Some(0xF1u8),
        '\u{0442}' => Some(0xF2u8),
        '\u{0443}' => Some(0xF3u8),
        '\u{0444}' => Some(0xF4u8),
        '\u{0445}' => Some(0xF5u8),
        '\u{0446}' => Some(0xF6u8),
        '\u{0447}' => Some(0xF7u8),
        '\u{0448}' => Some(0xF8u8),
        '\u{0449}' => Some(0xF9u8),
        '\u{044A}' => Some(0xFAu8),
        '\u{044B}' => Some(0xFBu8),
        '\u{044C}' => Some(0xFCu8),
        '\u{044D}' => Some(0xFDu8),
        '\u{044E}' => Some(0xFEu8),
        '\u{044F}' => Some(0xFFu8),
        _ => None,
    }
}

/// The character of one byte.
pub fn decode_byte(b: u8) -> (c: char)
    ensures
        c == char_of(b),
{
    if b < 0x80 {
        b as char
    } else {
        high_char_exec(b)
    }
}

/// The byte of one character, `?` where the code page has none.
pub fn encode_char(c: char) -> (b: u8)
    ensures
        b == encoded_byte(c),
{
    if (c as u32) < 0x80 {
        c as u8
    } else {
        match high_byte_exec(c) {
            Some(b) => b,
            None => 0x3Fu8,
        }
    }
}

/// Bytes in CP1251 → text.
pub fn decode(bytes: &[u8]) -> (text: String)
    ensures
        text@ == decoded(bytes@),
{
    let mut out = String::new();
    let mut i: usize = 0;
    while i < bytes.len()
        invariant
            i <= bytes.len(),
            out@ == decoded(bytes@.take(i as int)),
        decreases bytes.len() - i,
    {
        let c = decode_byte(bytes[i]);
        string_push(&mut out, c);
        assert(bytes@.take(i as int + 1) == bytes@.take(i as int).push(bytes@[i as int]));
        i = i + 1;
    }
    assert(bytes@.take(bytes.len() as int) == bytes@);
    out
}

/// Text → bytes in CP1251; a character outside the code page becomes `?`.
pub fn encode(text: &str) -> (bytes: Vec<u8>)
    ensures
        bytes@ == encoded(text@),
{
    let mut out: Vec<u8> = Vec::new();
    let ghost all = text@;
    for c in it: text.chars()
        invariant
            it.seq() == all,
            out@ == encoded(all.take(it.index() as int)),
    {
        proof {
            assert(all.take(it.index() as int + 1) == all.take(it.index() as int).push(c));
        }
        out.push(encode_char(c));
    }
    proof {
        assert(all.take(all.len() as int) == all);
    }
    out
}

/// Every byte's character is written back as that byte.
pub proof fn lemma_byte_round_trip(b: u8)
    ensures
        byte_of(char_of(b)) == Some(b),
{
}

/// A character that has a byte is what that byte decodes to.
pub proof fn lemma_char_round_trip(c: char)
    ensures
        byte_of(c) matches Some(b) ==> char_of(b) == c,
{
}

/// Decoding never loses anything: encoding the decoded text gives back the
/// very same bytes, whatever they were.
pub proof fn law_encode_decode(bytes: Seq<u8>)
    ensures
        encoded(decoded(bytes)) == bytes,
{
    assert forall|i: int| 0 <= i < bytes.len() implies encoded(decoded(bytes))[i] == bytes[i] by {
        lemma_byte_round_trip(bytes[i]);
    }
    assert(encoded(decoded(bytes)) =~= bytes);
}

/// A text that the code page can hold survives encoding and decoding.
pub proof fn law_decode_encode(text: Seq<char>)
    requires
        representable(text),
    ensures
        decoded(encoded(text)) == text,
{
    assert forall|i: int| 0 <= i < text.len() implies decoded(encoded(text))[i] == text[i] by {
        assert(byte_of(text[i]) is Some);
        lemma_char_round_trip(text[i]);
    }
    assert(decoded(encoded(text)) =~= text);
}

/// A decoded text is always representable.
pub proof fn lemma_decoded_representable(bytes: Seq<u8>)
    ensures
        representable(decoded(bytes)),
{
    assert forall|i: int| 0 <= i < decoded(bytes).len() implies (#[trigger] byte_of(decoded(bytes)[i])) is Some by {
        lemma_byte_round_trip(bytes[i]);
    }
}

} // verus!
