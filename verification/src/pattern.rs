//! Pattern language for window rules: escape processing, anchor parsing, a
//! Thompson NFA compiler and its linear-time simulator, and the anchored
//! matcher built on them.
//!
//! The meaning of a pattern is given declaratively by [`unit_match`] over the
//! unit sequence of the processed core; every executable stage is proved
//! against it.
use vstd::prelude::*;
use vstd::string::StringSliceAdditionalSpecFns;
use vstd::utf8::{
    decode_first_codepoint, is_char_boundary, is_leading_byte_width_2, is_leading_byte_width_3,
    is_leading_byte_width_4, length_of_first_scalar, pop_first_scalar, valid_first_scalar,
    valid_leading_and_continuation_bytes_first_codepoint, valid_utf8,
};

verus! {

// ---------------------------------------------------------------------------
// Placeholder bytes produced by escape processing and read by the compiler.
// ---------------------------------------------------------------------------

/// `\^`: escaped literal caret.
pub const ESC_CARET: u8 = 0x01;
/// `\$`: escaped literal dollar.
pub const ESC_DOLLAR: u8 = 0x02;
/// `\*`: escaped literal star.
pub const ESC_STAR: u8 = 0x03;
/// `\\`: escaped literal backslash.
pub const ESC_BSLASH: u8 = 0x04;
/// `\d`: digit class.
pub const CLASS_DIGIT: u8 = 0x05;
/// `\D`: non-digit class.
pub const CLASS_NDIGIT: u8 = 0x06;
/// `\w`: word-character class.
pub const CLASS_WORD: u8 = 0x07;
/// `\W`: non-word-character class.
pub const CLASS_NWORD: u8 = 0x08;
/// `\s`: whitespace class.
pub const CLASS_SPACE: u8 = 0x09;
/// `\S`: non-whitespace class.
pub const CLASS_NSPACE: u8 = 0x0A;
/// `\b`: zero-width word-boundary assertion.
pub const ASSERT_BOUND: u8 = 0x0B;
/// `\B`: zero-width non-boundary assertion.
pub const ASSERT_NBOUND: u8 = 0x0C;
/// Bare `.`: any byte except `\n` and `\r`.
pub const DOT_META: u8 = 0x0D;
/// Bare `+` after a consuming element: one-or-more quantifier.
pub const PLUS_QUANT: u8 = 0x0E;
/// Bare `*`: glob wildcard.
pub const GLOB_STAR: u8 = 0x2A;

// ---------------------------------------------------------------------------
// Character classes
// ---------------------------------------------------------------------------

pub open spec fn spec_is_digit_char(c: u8) -> bool {
    0x30 <= c <= 0x39
}

pub open spec fn spec_is_word_char(c: u8) -> bool {
    (0x30 <= c <= 0x39) || (0x41 <= c <= 0x5A) || (0x61 <= c <= 0x7A) || c == 0x5F
}

pub open spec fn spec_is_whitespace_char(c: u8) -> bool {
    c == 0x20 || c == 0x09 || c == 0x0A || c == 0x0D || c == 0x0C || c == 0x0B
}

/// ASCII lower-casing: folds `A-Z` only.
pub open spec fn ascii_lower(c: u8) -> u8 {
    if 0x41 <= c <= 0x5A {
        (c + 32) as u8
    } else {
        c
    }
}

/// `[0-9]`.
pub fn is_digit_char(c: u8) -> (r: bool)
    ensures
        r == spec_is_digit_char(c),
{
    c >= 0x30 && c <= 0x39
}

/// `[A-Za-z0-9_]`.
pub fn is_word_char(c: u8) -> (r: bool)
    ensures
        r == spec_is_word_char(c),
{
    (c >= 0x30 && c <= 0x39) || (c >= 0x41 && c <= 0x5A) || (c >= 0x61 && c <= 0x7A) || c
        == 0x5F
}

/// Exactly space, tab, newline, carriage return, form feed and vertical tab.
pub fn is_whitespace_char(c: u8) -> (r: bool)
    ensures
        r == spec_is_whitespace_char(c),
{
    c == 0x20 || c == 0x09 || c == 0x0A || c == 0x0D || c == 0x0C || c == 0x0B
}

fn to_ascii_lower(c: u8) -> (r: u8)
    ensures
        r == ascii_lower(c),
{
    if c >= 0x41 && c <= 0x5A {
        c + 32
    } else {
        c
    }
}

/// A boundary exists at `pos` iff exactly one neighbouring byte is a word
/// byte; positions off either end see an implicit non-word byte.
pub open spec fn spec_is_word_boundary(s: Seq<u8>, pos: int) -> bool {
    if pos == 0 {
        s.len() > 0 && spec_is_word_char(s[0])
    } else if pos == s.len() {
        s.len() > 0 && spec_is_word_char(s[s.len() - 1])
    } else if pos > s.len() || pos < 0 {
        false
    } else {
        spec_is_word_char(s[pos - 1]) != spec_is_word_char(s[pos])
    }
}

/// Word-boundary test against the whole string at an absolute position.
pub fn is_word_boundary(string: &[u8], pos: usize) -> (r: bool)
    ensures
        r == spec_is_word_boundary(string@, pos as int),
{
    let len = string.len();
    if pos == 0 {
        return len > 0 && is_word_char(string[0]);
    }
    if pos == len {
        return len > 0 && is_word_char(string[len - 1]);
    }
    if pos > len {
        return false;
    }
    is_word_char(string[pos - 1]) != is_word_char(string[pos])
}

/// The literal byte an escaped-literal placeholder stands for.
pub open spec fn spec_decoded_literal(pc: u8) -> u8 {
    if pc == ESC_CARET {
        0x5E
    } else if pc == ESC_DOLLAR {
        0x24
    } else if pc == ESC_STAR {
        0x2A
    } else if pc == ESC_BSLASH {
        0x5C
    } else {
        pc
    }
}

/// Decode an escaped-literal placeholder (`0x01..=0x04`) to its literal byte;
/// any other byte is returned unchanged.
pub fn decoded_literal(pc: u8) -> (r: u8)
    ensures
        r == spec_decoded_literal(pc),
{
    if pc == ESC_CARET {
        0x5E
    } else if pc == ESC_DOLLAR {
        0x24
    } else if pc == ESC_STAR {
        0x2A
    } else if pc == ESC_BSLASH {
        0x5C
    } else {
        pc
    }
}

/// Whether processed-pattern byte `pc` accepts input byte `sc`.
pub open spec fn spec_char_matches(pc: u8, sc: u8, case_sensitive: bool) -> bool {
    if ESC_CARET <= pc <= ESC_BSLASH {
        let lit = spec_decoded_literal(pc);
        if case_sensitive {
            lit == sc
        } else {
            ascii_lower(lit) == ascii_lower(sc)
        }
    } else if pc == CLASS_DIGIT {
        spec_is_digit_char(sc)
    } else if pc == CLASS_NDIGIT {
        !spec_is_digit_char(sc)
    } else if pc == CLASS_WORD {
        spec_is_word_char(sc)
    } else if pc == CLASS_NWORD {
        !spec_is_word_char(sc)
    } else if pc == CLASS_SPACE {
        spec_is_whitespace_char(sc)
    } else if pc == CLASS_NSPACE {
        !spec_is_whitespace_char(sc)
    } else if pc == DOT_META {
        sc != 0x0A && sc != 0x0D
    } else if case_sensitive {
        pc == sc
    } else {
        ascii_lower(pc) == ascii_lower(sc)
    }
}

/// Test whether a processed-pattern byte matches an input byte.
pub fn pattern_char_matches(pc: u8, sc: u8, case_sensitive: bool) -> (r: bool)
    ensures
        r == spec_char_matches(pc, sc, case_sensitive),
{
    if pc >= ESC_CARET && pc <= ESC_BSLASH {
        let lit = decoded_literal(pc);
        return if case_sensitive {
            lit == sc
        } else {
            to_ascii_lower(lit) == to_ascii_lower(sc)
        };
    }
    if pc == CLASS_DIGIT {
        is_digit_char(sc)
    } else if pc == CLASS_NDIGIT {
        !is_digit_char(sc)
    } else if pc == CLASS_WORD {
        is_word_char(sc)
    } else if pc == CLASS_NWORD {
        !is_word_char(sc)
    } else if pc == CLASS_SPACE {
        is_whitespace_char(sc)
    } else if pc == CLASS_NSPACE {
        !is_whitespace_char(sc)
    } else if pc == DOT_META {
        sc != 0x0A && sc != 0x0D
    } else if case_sensitive {
        pc == sc
    } else {
        to_ascii_lower(pc) == to_ascii_lower(sc)
    }
}

// ---------------------------------------------------------------------------
// Escape processing
// ---------------------------------------------------------------------------

/// Whether the byte at `i` (within `b[..end]`) begins a two-byte escape.
pub open spec fn pe_is_escape(b: Seq<u8>, i: int, end: int) -> bool {
    b[i] == 0x5C && i + 1 < end && b[i + 1] != 0
}

/// The bytes emitted for the two-byte escape `\n`.
pub open spec fn pe_escape_out(n: u8) -> Seq<u8> {
    if n == 0x5E {
        seq![ESC_CARET]
    } else if n == 0x24 {
        seq![ESC_DOLLAR]
    } else if n == 0x2A {
        seq![ESC_STAR]
    } else if n == 0x5C {
        seq![ESC_BSLASH]
    } else if n == 0x2E {
        seq![0x2Eu8]
    } else if n == 0x2B {
        seq![0x2Bu8]
    } else if n == 0x64 {
        seq![CLASS_DIGIT]
    } else if n == 0x44 {
        seq![CLASS_NDIGIT]
    } else if n == 0x77 {
        seq![CLASS_WORD]
    } else if n == 0x57 {
        seq![CLASS_NWORD]
    } else if n == 0x73 {
        seq![CLASS_SPACE]
    } else if n == 0x53 {
        seq![CLASS_NSPACE]
    } else if n == 0x62 {
        seq![ASSERT_BOUND]
    } else if n == 0x42 {
        seq![ASSERT_NBOUND]
    } else {
        seq![0x5Cu8, n]
    }
}

/// Bytes emitted by one step of escape processing at `i`, given whether the
/// previous element consumed input.
pub open spec fn pe_out(b: Seq<u8>, i: int, end: int, last_consumable: bool) -> Seq<u8> {
    if b[i] == 0x5C {
        if pe_is_escape(b, i, end) {
            pe_escape_out(b[i + 1])
        } else {
            seq![0x5Cu8]
        }
    } else if b[i] == 0x2A {
        seq![GLOB_STAR]
    } else if b[i] == 0x2B {
        if last_consumable {
            seq![PLUS_QUANT]
        } else {
            seq![0x2Bu8]
        }
    } else if b[i] == 0x2E {
        seq![DOT_META]
    } else {
        seq![b[i]]
    }
}

/// Input bytes consumed by one step at `i`.
pub open spec fn pe_adv(b: Seq<u8>, i: int, end: int) -> int {
    if pe_is_escape(b, i, end) {
        2
    } else {
        1
    }
}

/// Whether the element emitted by one step at `i` consumes input.
pub open spec fn pe_next_lc(b: Seq<u8>, i: int, end: int, last_consumable: bool) -> bool {
    if b[i] == 0x5C {
        !(pe_is_escape(b, i, end) && (b[i + 1] == 0x62 || b[i + 1] == 0x42))
    } else if b[i] == 0x2A {
        false
    } else if b[i] == 0x2B {
        !last_consumable
    } else {
        true
    }
}

/// Escape processing of `b[i..end]`, stopping at the first NUL byte.
pub open spec fn pe_from(b: Seq<u8>, i: int, end: int, last_consumable: bool) -> Seq<u8>
    decreases end - i,
{
    if i >= end || i < 0 || end > b.len() || b[i] == 0 {
        seq![]
    } else {
        pe_out(b, i, end, last_consumable) + pe_from(
            b,
            i + pe_adv(b, i, end),
            end,
            pe_next_lc(b, i, end, last_consumable),
        )
    }
}

/// The processed form of the whole byte string `b`.
pub open spec fn spec_process_escapes(b: Seq<u8>) -> Seq<u8> {
    pe_from(b, 0, b.len() as int, false)
}

/// One step of escape processing at `i`: appends the emitted bytes and
/// returns the number of input bytes consumed and the new consumable flag.
fn pe_step(bytes: &[u8], i: usize, end: usize, last_consumable: bool, out: &mut Vec<u8>) -> (r: (
    usize,
    bool,
))
    requires
        i < end <= bytes@.len(),
        bytes@[i as int] != 0,
    ensures
        final(out)@ == old(out)@ + pe_out(bytes@, i as int, end as int, last_consumable),
        r.0 == pe_adv(bytes@, i as int, end as int),
        r.1 == pe_next_lc(bytes@, i as int, end as int, last_consumable),
{
    let b = bytes[i];
    if b == 0x5C {
        if i + 1 < end && bytes[i + 1] != 0x00 {
            let n = bytes[i + 1];
            if n == 0x5E {
                out.push(ESC_CARET);
            } else if n == 0x24 {
                out.push(ESC_DOLLAR);
            } else if n == 0x2A {
                out.push(ESC_STAR);
            } else if n == 0x5C {
                out.push(ESC_BSLASH);
            } else if n == 0x2E {
                out.push(0x2E);
            } else if n == 0x2B {
                out.push(0x2B);
            } else if n == 0x64 {
                out.push(CLASS_DIGIT);
            } else if n == 0x44 {
                out.push(CLASS_NDIGIT);
            } else if n == 0x77 {
                out.push(CLASS_WORD);
            } else if n == 0x57 {
                out.push(CLASS_NWORD);
            } else if n == 0x73 {
                out.push(CLASS_SPACE);
            } else if n == 0x53 {
                out.push(CLASS_NSPACE);
            } else if n == 0x62 {
                out.push(ASSERT_BOUND);
                return (2, false);
            } else if n == 0x42 {
                out.push(ASSERT_NBOUND);
                return (2, false);
            } else {
                out.push(0x5C);
                out.push(n);
            }
            (2, true)
        } else {
            out.push(0x5C);
            (1, true)
        }
    } else if b == GLOB_STAR {
        out.push(GLOB_STAR);
        (1, false)
    } else if b == 0x2B {
        if last_consumable {
            out.push(PLUS_QUANT);
            (1, false)
        } else {
            out.push(0x2B);
            (1, true)
        }
    } else if b == 0x2E {
        out.push(DOT_META);
        (1, true)
    } else {
        out.push(b);
        (1, true)
    }
}

/// Escape processing of `bytes[start..end]` (the core carved out by anchor
/// parsing).
pub fn process_escapes_range(bytes: &[u8], start: usize, end: usize) -> (out: Vec<u8>)
    requires
        start <= end <= bytes@.len(),
    ensures
        out@ == pe_from(bytes@, start as int, end as int, false),
        out@.len() <= end - start,
{
    let mut out: Vec<u8> = Vec::with_capacity(end - start);
    let mut last_consumable = false;
    let mut i = start;
    while i < end
        invariant
            start <= i <= end <= bytes@.len(),
            out@ + pe_from(bytes@, i as int, end as int, last_consumable) == pe_from(
                bytes@,
                start as int,
                end as int,
                false,
            ),
            out@.len() <= i - start,
        ensures
            start <= i <= end <= bytes@.len(),
            out@ + pe_from(bytes@, i as int, end as int, last_consumable) == pe_from(
                bytes@,
                start as int,
                end as int,
                false,
            ),
            out@.len() <= i - start,
            i >= end || bytes@[i as int] == 0,
        decreases end - i,
    {
        if bytes[i] == 0x00 {
            break;
        }
        proof {
            lemma_pe_out_len(bytes@, i as int, end as int, last_consumable);
        }
        let ghost old_out = out@;
        let ghost old_i = i as int;
        let ghost old_lc = last_consumable;
        let (adv, lc) = pe_step(bytes, i, end, last_consumable, &mut out);
        last_consumable = lc;
        i = i + adv;
        proof {
            assert(pe_from(bytes@, old_i, end as int, old_lc) == pe_out(
                bytes@,
                old_i,
                end as int,
                old_lc,
            ) + pe_from(bytes@, i as int, end as int, last_consumable));
            assert(old_out + pe_from(bytes@, old_i, end as int, old_lc) =~= out@ + pe_from(
                bytes@,
                i as int,
                end as int,
                last_consumable,
            ));
        }
    }
    assert(pe_from(bytes@, i as int, end as int, last_consumable) =~= Seq::<u8>::empty());
    assert(out@ + pe_from(bytes@, i as int, end as int, last_consumable) =~= out@);
    out
}

/// Transform a human-authored pattern into the processed byte stream the NFA
/// compiler consumes: escapes become placeholder bytes, processing stops at
/// the first NUL byte, and nothing is appended.
pub fn process_escapes(pattern: &str) -> (out: Vec<u8>)
    ensures
        out@ == spec_process_escapes(pattern.spec_bytes()),
        out@.len() <= pattern.spec_bytes().len(),
{
    let bytes = pattern.as_bytes();
    process_escapes_range(bytes, 0, bytes.len())
}

// ---------------------------------------------------------------------------
// Anchor parsing
// ---------------------------------------------------------------------------

/// Index of the first NUL byte at or after `i`, or the length.
pub open spec fn first_nul(b: Seq<u8>, i: int) -> int
    decreases b.len() - i,
{
    if i < 0 || i >= b.len() {
        b.len() as int
    } else if b[i] == 0 {
        i
    } else {
        first_nul(b, i + 1)
    }
}

/// Number of consecutive backslashes that end just before index `k`, not
/// counting below `start`.
pub open spec fn backslash_run(b: Seq<u8>, start: int, k: int) -> nat
    decreases k - start,
{
    if k <= start || k > b.len() {
        0
    } else if b[k - 1] == 0x5C {
        1 + backslash_run(b, start, k - 1)
    } else {
        0
    }
}

/// The effective length of a pattern: up to its first NUL byte.
pub open spec fn pattern_len(b: Seq<u8>) -> int {
    first_nul(b, 0)
}

/// The pattern begins with `^`.
pub open spec fn spec_start_anchored(b: Seq<u8>) -> bool {
    pattern_len(b) > 0 && b[0] == 0x5E
}

/// Index where the core begins (after a start anchor).
pub open spec fn core_start(b: Seq<u8>) -> int {
    if spec_start_anchored(b) {
        1
    } else {
        0
    }
}

/// The pattern ends with a `$` preceded by an even number of backslashes.
pub open spec fn spec_end_anchored(b: Seq<u8>) -> bool {
    let len = pattern_len(b);
    &&& len > core_start(b)
    &&& b[len - 1] == 0x24
    &&& backslash_run(b, core_start(b), len - 1) % 2 == 0
}

/// Index where the core ends (before an end anchor).
pub open spec fn core_end(b: Seq<u8>) -> int {
    if spec_end_anchored(b) {
        pattern_len(b) - 1
    } else {
        pattern_len(b)
    }
}

/// The processed core of a pattern.
pub open spec fn spec_core(b: Seq<u8>) -> Seq<u8> {
    pe_from(b, core_start(b), core_end(b), false)
}

/// The result of parsing a user pattern: the anchor flags and the processed
/// core between them.
#[derive(Debug, Clone, PartialEq)]
pub struct ParsedPattern {
    /// Escape-processed bytes between the anchors.
    pub core: Vec<u8>,
    /// The pattern began with `^`.
    pub start_anchored: bool,
    /// The pattern ended with an unescaped `$`.
    pub end_anchored: bool,
}

/// `parsed` is the parse of the pattern bytes `b`.
pub open spec fn is_parse_of(parsed: ParsedPattern, b: Seq<u8>) -> bool {
    &&& parsed.core@ == spec_core(b)
    &&& parsed.start_anchored == spec_start_anchored(b)
    &&& parsed.end_anchored == spec_end_anchored(b)
}

proof fn lemma_first_nul_bounds(b: Seq<u8>, i: int)
    requires
        0 <= i <= b.len(),
    ensures
        i <= first_nul(b, i) <= b.len(),
        first_nul(b, i) < b.len() ==> b[first_nul(b, i)] == 0,
        forall|j: int| i <= j < first_nul(b, i) ==> b[j] != 0,
    decreases b.len() - i,
{
    if i < b.len() && b[i] != 0 {
        lemma_first_nul_bounds(b, i + 1);
    }
}

/// Detect the anchors of a pattern and carve out its processed core. Only the
/// bytes before the first NUL count.
pub fn parse_pattern(pattern: &str) -> (parsed: ParsedPattern)
    ensures
        is_parse_of(parsed, pattern.spec_bytes()),
        parsed.core@.len() <= pattern.spec_bytes().len(),
{
    let bytes = pattern.as_bytes();
    let ghost b = bytes@;
    let mut len = 0usize;
    while len < bytes.len()
        invariant
            0 <= len <= b.len(),
            bytes@ == b,
            first_nul(b, len as int) == first_nul(b, 0),
        ensures
            0 <= len <= b.len(),
            first_nul(b, len as int) == first_nul(b, 0),
            len == b.len() || b[len as int] == 0,
        decreases b.len() - len,
    {
        if bytes[len] == 0 {
            break;
        }
        len += 1;
    }
    proof {
        lemma_first_nul_bounds(b, 0);
        if len < b.len() {
            assert(first_nul(b, len as int) == len);
        } else {
            assert(first_nul(b, len as int) == b.len());
        }
    }
    let mut start = 0usize;
    let mut end = len;
    let mut start_anchored = false;
    let mut end_anchored = false;
    if end > start && bytes[start] == 0x5E {
        start_anchored = true;
        start += 1;
    }
    if end > start && bytes[end - 1] == 0x24 {
        let mut bs = 0usize;
        let mut k = end - 1;
        while k > start
            invariant_except_break
                bs + backslash_run(b, start as int, k as int) == backslash_run(
                    b,
                    start as int,
                    end - 1,
                ),
            invariant
                start <= k <= end - 1,
                end <= b.len(),
                bytes@ == b,
                bs <= end - 1 - k,
            ensures
                bs == backslash_run(b, start as int, end - 1),
            decreases k,
        {
            k -= 1;
            if bytes[k] == 0x5C {
                bs += 1;
            } else {
                break;
            }
        }
        if bs % 2 == 0 {
            end_anchored = true;
            end -= 1;
        }
    }
    let core = process_escapes_range(bytes, start, end);
    ParsedPattern { core, start_anchored, end_anchored }
}

// ---------------------------------------------------------------------------
// Units: the meaning-bearing elements of a processed core
// ---------------------------------------------------------------------------

/// One element of a processed pattern core.
pub enum Unit {
    /// A single byte matched by [`spec_char_matches`].
    Lit(u8),
    /// One or more bytes each matched by [`spec_char_matches`].
    Plus(u8),
    /// Any sequence of bytes, including the empty one.
    Glob,
    /// A zero-width word-boundary (`ASSERT_BOUND`) or non-boundary test.
    Assert(u8),
}

/// The units of the processed core `p` from index `i`: a stray `PLUS_QUANT`
/// contributes nothing, and `X PLUS_QUANT` is one `Plus` unit.
pub open spec fn units_from(p: Seq<u8>, i: int) -> Seq<Unit>
    decreases p.len() - i,
{
    if i < 0 || i >= p.len() {
        seq![]
    } else if p[i] == GLOB_STAR {
        seq![Unit::Glob] + units_from(p, i + 1)
    } else if p[i] == ASSERT_BOUND || p[i] == ASSERT_NBOUND {
        seq![Unit::Assert(p[i])] + units_from(p, i + 1)
    } else if p[i] == PLUS_QUANT {
        units_from(p, i + 1)
    } else if i + 1 < p.len() && p[i + 1] == PLUS_QUANT {
        seq![Unit::Plus(p[i])] + units_from(p, i + 2)
    } else {
        seq![Unit::Lit(p[i])] + units_from(p, i + 1)
    }
}

/// The units of a processed core.
pub open spec fn units(p: Seq<u8>) -> Seq<Unit> {
    units_from(p, 0)
}

// ---------------------------------------------------------------------------
// Declarative matching semantics
// ---------------------------------------------------------------------------

/// A `\b` / `\B` assertion holds at `pos` of the whole string `s`. Neither
/// holds on an empty string.
pub open spec fn assert_holds(s: Seq<u8>, pos: int, arg: u8) -> bool {
    s.len() > 0 && spec_is_word_boundary(s, pos) == (arg == ASSERT_BOUND)
}

/// The units `us` consume exactly `s[pos..end]`; assertions are evaluated
/// against the whole string `s` at absolute positions.
pub open spec fn unit_match(us: Seq<Unit>, s: Seq<u8>, pos: int, end: int, cs: bool) -> bool
    decreases us.len(), end - pos,
{
    if us.len() == 0 {
        pos == end
    } else {
        match us[0] {
            Unit::Lit(c) => pos < end && 0 <= pos < s.len() && spec_char_matches(c, s[pos], cs)
                && unit_match(us.drop_first(), s, pos + 1, end, cs),
            Unit::Plus(c) => pos < end && 0 <= pos < s.len() && spec_char_matches(c, s[pos], cs)
                && (unit_match(us.drop_first(), s, pos + 1, end, cs) || unit_match(
                us,
                s,
                pos + 1,
                end,
                cs,
            )),
            Unit::Glob => unit_match(us.drop_first(), s, pos, end, cs) || (pos < end
                && unit_match(us, s, pos + 1, end, cs)),
            Unit::Assert(a) => assert_holds(s, pos, a) && unit_match(
                us.drop_first(),
                s,
                pos,
                end,
                cs,
            ),
        }
    }
}

/// The last position a match starting at `start` may end at.
pub open spec fn run_end(s: Seq<u8>, start: int) -> int {
    if start <= s.len() {
        s.len() as int
    } else {
        start
    }
}

/// A run of the units from `start`: with `full_match` it must end at the end
/// of the string; otherwise any end will do.
pub open spec fn unit_run(us: Seq<Unit>, s: Seq<u8>, start: int, cs: bool, full_match: bool) -> bool {
    if full_match {
        unit_match(us, s, start, run_end(s, start), cs)
    } else {
        exists|e: int| start <= e <= run_end(s, start) && #[trigger] unit_match(us, s, start, e, cs)
    }
}

// ---------------------------------------------------------------------------
// Thompson NFA
// ---------------------------------------------------------------------------

/// A compiled NFA node. Edges are indices into the node vector; the start
/// state is always index 0.
#[derive(Debug, Clone, PartialEq, Eq)]
pub enum NfaOp {
    /// Consume one byte matching `arg`, then go to `out`.
    Char { arg: u8, out: usize },
    /// Consume any one byte (including newline), then go to `out`.
    Any { out: usize },
    /// Epsilon fork to both `out` and `out1`.
    Split { out: usize, out1: usize },
    /// Zero-width word-boundary test (`arg` is `ASSERT_BOUND` or
    /// `ASSERT_NBOUND`), then go to `out`.
    Assert { arg: u8, out: usize },
    /// Accepting state.
    Match,
}

/// Number of nodes a unit compiles to.
pub open spec fn unit_size(u: Unit) -> int {
    match u {
        Unit::Lit(_) => 1,
        Unit::Plus(_) => 2,
        Unit::Glob => 2,
        Unit::Assert(_) => 1,
    }
}

/// Number of nodes a unit sequence compiles to (without the final `Match`).
pub open spec fn units_size(us: Seq<Unit>) -> int
    decreases us.len(),
{
    if us.len() == 0 {
        0
    } else {
        units_size(us.drop_last()) + unit_size(us.last())
    }
}

/// The nodes of one unit whose entry is at index `e`; the unit's exit goes
/// to `e + unit_size(u)`, where the next unit (or `Match`) begins.
pub open spec fn unit_nodes(u: Unit, e: int) -> Seq<NfaOp> {
    match u {
        Unit::Lit(c) => seq![NfaOp::Char { arg: c, out: (e + 1) as usize }],
        Unit::Plus(c) => seq![
            NfaOp::Char { arg: c, out: (e + 1) as usize },
            NfaOp::Split { out: e as usize, out1: (e + 2) as usize },
        ],
        Unit::Glob => seq![
            NfaOp::Split { out: (e + 1) as usize, out1: (e + 2) as usize },
            NfaOp::Any { out: e as usize },
        ],
        Unit::Assert(a) => seq![NfaOp::Assert { arg: a, out: (e + 1) as usize }],
    }
}

/// The nodes of a unit sequence laid out one unit after another.
pub open spec fn unit_seq_nodes(us: Seq<Unit>) -> Seq<NfaOp>
    decreases us.len(),
{
    if us.len() == 0 {
        seq![]
    } else {
        unit_seq_nodes(us.drop_last()) + unit_nodes(us.last(), units_size(us.drop_last()))
    }
}

/// The Thompson NFA of a unit sequence: its nodes followed by `Match`.
pub open spec fn canon_nfa(us: Seq<Unit>) -> Seq<NfaOp> {
    unit_seq_nodes(us).push(NfaOp::Match)
}

/// Read back the unit sequence of an NFA from node `i`.
pub open spec fn decode_from(st: Seq<NfaOp>, i: int) -> Seq<Unit>
    decreases st.len() + 2 - i,
{
    if i < 0 || i >= st.len() {
        seq![]
    } else {
        match st[i] {
            NfaOp::Match => seq![],
            NfaOp::Any { .. } => seq![],
            NfaOp::Char { arg, .. } => if i + 1 < st.len() && (st[i + 1] matches NfaOp::Split {
                out,
                ..
            } && out == i) {
                seq![Unit::Plus(arg)] + decode_from(st, i + 2)
            } else {
                seq![Unit::Lit(arg)] + decode_from(st, i + 1)
            },
            NfaOp::Split { .. } => seq![Unit::Glob] + decode_from(st, i + 2),
            NfaOp::Assert { arg, .. } => seq![Unit::Assert(arg)] + decode_from(st, i + 1),
        }
    }
}

/// The unit sequence an NFA implements.
pub open spec fn decode_units(st: Seq<NfaOp>) -> Seq<Unit> {
    decode_from(st, 0)
}

/// `st` is exactly the Thompson NFA of the units it decodes to.
pub open spec fn is_canonical(st: Seq<NfaOp>) -> bool {
    st == canon_nfa(decode_units(st))
}

pub open spec fn spec_set_out(op: NfaOp, idx: usize) -> NfaOp {
    match op {
        NfaOp::Char { arg, .. } => NfaOp::Char { arg, out: idx },
        NfaOp::Any { .. } => NfaOp::Any { out: idx },
        NfaOp::Assert { arg, .. } => NfaOp::Assert { arg, out: idx },
        NfaOp::Split { out1, .. } => NfaOp::Split { out: idx, out1 },
        NfaOp::Match => NfaOp::Match,
    }
}

pub open spec fn spec_set_out1(op: NfaOp, idx: usize) -> NfaOp {
    match op {
        NfaOp::Split { out, .. } => NfaOp::Split { out, out1: idx },
        _ => op,
    }
}

impl NfaOp {
    /// Write `idx` into the primary `out` edge; no-op on `Match`.
    pub fn set_out(&mut self, idx: usize)
        ensures
            *final(self) == spec_set_out(*old(self), idx),
    {
        match self {
            NfaOp::Char { out, .. } => *out = idx,
            NfaOp::Any { out } => *out = idx,
            NfaOp::Assert { out, .. } => *out = idx,
            NfaOp::Split { out, .. } => *out = idx,
            NfaOp::Match => {},
        }
    }

    /// Write `idx` into a `Split`'s secondary `out1` edge; no-op otherwise.
    pub fn set_out1(&mut self, idx: usize)
        ensures
            *final(self) == spec_set_out1(*old(self), idx),
    {
        if let NfaOp::Split { out1, .. } = self {
            *out1 = idx;
        }
    }
}

/// The exit slot the compiler threads: where the next unit's entry index is
/// written once that unit is compiled.
enum DanglingExit {
    /// The function's start slot (no unit compiled yet).
    Start,
    /// `states[idx].out`.
    Out(usize),
    /// `states[idx].out1` of a `Split`.
    SplitSecond(usize),
}

spec fn apply_tail(st: Seq<NfaOp>, tail: DanglingExit, target: usize) -> Seq<NfaOp> {
    match tail {
        DanglingExit::Start => st,
        DanglingExit::Out(i) => st.update(i as int, spec_set_out(st[i as int], target)),
        DanglingExit::SplitSecond(i) => st.update(i as int, spec_set_out1(st[i as int], target)),
    }
}

spec fn tail_below(tail: DanglingExit, n: int) -> bool {
    match tail {
        DanglingExit::Start => true,
        DanglingExit::Out(i) => i < n,
        DanglingExit::SplitSecond(i) => i < n,
    }
}

/// Write `entry_idx` into the dangling exit `tail`.
fn resolve(
    states: &mut Vec<NfaOp>,
    start: &mut Option<usize>,
    tail: &DanglingExit,
    entry_idx: usize,
)
    requires
        tail_below(*tail, old(states)@.len() as int),
    ensures
        final(states)@ == apply_tail(old(states)@, *tail, entry_idx),
        *final(start) == (if *tail is Start {
            Some(entry_idx)
        } else {
            *old(start)
        }),
{
    match tail {
        DanglingExit::Start => *start = Some(entry_idx),
        DanglingExit::Out(idx) => states[*idx].set_out(entry_idx),
        DanglingExit::SplitSecond(idx) => states[*idx].set_out1(entry_idx),
    }
}

proof fn lemma_unit_seq_nodes_len(us: Seq<Unit>)
    ensures
        unit_seq_nodes(us).len() == units_size(us),
        units_size(us) >= 0,
    decreases us.len(),
{
    if us.len() > 0 {
        lemma_unit_seq_nodes_len(us.drop_last());
    }
}

proof fn lemma_unit_seq_nodes_push(us: Seq<Unit>, u: Unit)
    ensures
        unit_seq_nodes(us.push(u)) == unit_seq_nodes(us) + unit_nodes(u, units_size(us)),
        units_size(us.push(u)) == units_size(us) + unit_size(u),
{
    assert(us.push(u).drop_last() =~= us);
}

/// Compile a processed core into its Thompson NFA. The result is exactly the
/// canonical NFA of the core's units, whose start state is index 0; each unit
/// takes at most two nodes, so the size is linear in the input.
pub fn nfa_compile(pat: &[u8]) -> (states: Vec<NfaOp>)
    requires
        pat@.len() * 2 + 2 <= usize::MAX,
    ensures
        states@ == canon_nfa(units(pat@)),
        states@.len() <= 2 * pat@.len() + 1,
{
    let mut states: Vec<NfaOp> = Vec::with_capacity(pat.len() * 2 + 2);
    let mut start: Option<usize> = None;
    let mut tail = DanglingExit::Start;
    let ghost p = pat@;
    let ghost mut done: Seq<Unit> = seq![];

    let mut i: usize = 0;
    while i < pat.len()
        invariant
            p == pat@,
            p.len() * 2 + 2 <= usize::MAX,
            0 <= i <= p.len(),
            done + units_from(p, i as int) == units(p),
            states@.len() == units_size(done),
            states@.len() <= 2 * i,
            tail_below(tail, states@.len() as int),
            apply_tail(states@, tail, states@.len() as usize) == unit_seq_nodes(done),
            (tail is Start) == (done.len() == 0),
            done.len() == 0 ==> states@.len() == 0 && start is None,
            done.len() > 0 ==> start == Some(0usize),
        decreases p.len() - i,
    {
        let b = pat[i];
        let ghost old_states = states@;
        let ghost l = states@.len() as int;
        proof {
            lemma_unit_seq_nodes_len(done);
        }
        if b == GLOB_STAR {
            let sp_idx = states.len();
            states.push(NfaOp::Split { out: 0, out1: 0 });
            let any_idx = states.len();
            states.push(NfaOp::Any { out: 0 });
            states[sp_idx].set_out(any_idx);
            states[any_idx].set_out(sp_idx);
            resolve(&mut states, &mut start, &tail, sp_idx);
            tail = DanglingExit::SplitSecond(sp_idx);
            proof {
                lemma_unit_seq_nodes_push(done, Unit::Glob);
                assert(units_from(p, i as int) == seq![Unit::Glob] + units_from(p, i + 1));
                done = done.push(Unit::Glob);
                assert(apply_tail(states@, tail, states@.len() as usize) =~= unit_seq_nodes(done));
            }
            i += 1;
        } else if b == ASSERT_BOUND || b == ASSERT_NBOUND {
            let a_idx = states.len();
            states.push(NfaOp::Assert { arg: b, out: 0 });
            resolve(&mut states, &mut start, &tail, a_idx);
            tail = DanglingExit::Out(a_idx);
            proof {
                lemma_unit_seq_nodes_push(done, Unit::Assert(b));
                assert(units_from(p, i as int) == seq![Unit::Assert(b)] + units_from(p, i + 1));
                done = done.push(Unit::Assert(b));
                assert(apply_tail(states@, tail, states@.len() as usize) =~= unit_seq_nodes(done));
            }
            i += 1;
        } else if b == PLUS_QUANT {
            i += 1;
        } else {
            let c_idx = states.len();
            states.push(NfaOp::Char { arg: b, out: 0 });
            if i + 1 < pat.len() && pat[i + 1] == PLUS_QUANT {
                let sp_idx = states.len();
                states.push(NfaOp::Split { out: c_idx, out1: 0 });
                states[c_idx].set_out(sp_idx);
                resolve(&mut states, &mut start, &tail, c_idx);
                tail = DanglingExit::SplitSecond(sp_idx);
                proof {
                    lemma_unit_seq_nodes_push(done, Unit::Plus(b));
                    assert(units_from(p, i as int) == seq![Unit::Plus(b)] + units_from(p, i + 2));
                    done = done.push(Unit::Plus(b));
                    assert(apply_tail(states@, tail, states@.len() as usize) =~= unit_seq_nodes(
                        done,
                    ));
                }
                i += 2;
            } else {
                resolve(&mut states, &mut start, &tail, c_idx);
                tail = DanglingExit::Out(c_idx);
                proof {
                    lemma_unit_seq_nodes_push(done, Unit::Lit(b));
                    assert(units_from(p, i as int) == seq![Unit::Lit(b)] + units_from(p, i + 1));
                    done = done.push(Unit::Lit(b));
                    assert(apply_tail(states@, tail, states@.len() as usize) =~= unit_seq_nodes(
                        done,
                    ));
                }
                i += 1;
            }
        }
        proof {
            assert(done + units_from(p, i as int) =~= units(p));
        }
    }
    let m_idx = states.len();
    states.push(NfaOp::Match);
    resolve(&mut states, &mut start, &tail, m_idx);
    proof {
        assert(units_from(p, i as int) =~= Seq::<Unit>::empty());
        assert(done =~= units(p));
        assert(states@ =~= canon_nfa(done));
        assert(start == Some(0usize));
    }
    states
}

// ---------------------------------------------------------------------------
// NFA closure semantics and the structure of canonical NFAs
// ---------------------------------------------------------------------------

/// A node that waits for input (`Char`/`Any`) or accepts (`Match`).
pub open spec fn is_live(op: NfaOp) -> bool {
    op is Char || op is Any || op is Match
}

/// Epsilon closure of node `q` at absolute position `pos`: the live nodes
/// reached through `Split` and passing `Assert` nodes. Epsilon edges are
/// followed only forwards or onto live nodes.
pub open spec fn eclose(st: Seq<NfaOp>, q: usize, s: Seq<u8>, pos: int) -> Set<usize>
    decreases st.len() - q,
{
    if q >= st.len() {
        Set::empty()
    } else {
        match st[q as int] {
            NfaOp::Split { out, out1 } => (if out > q && out < st.len() {
                eclose(st, out, s, pos)
            } else if out < st.len() && is_live(st[out as int]) {
                set![out]
            } else {
                Set::empty()
            }).union(
                if out1 > q && out1 < st.len() {
                    eclose(st, out1, s, pos)
                } else if out1 < st.len() && is_live(st[out1 as int]) {
                    set![out1]
                } else {
                    Set::empty()
                },
            ),
            NfaOp::Assert { arg, out } => if assert_holds(s, pos, arg) {
                if out > q && out < st.len() {
                    eclose(st, out, s, pos)
                } else if out < st.len() && is_live(st[out as int]) {
                    set![out]
                } else {
                    Set::empty()
                }
            } else {
                Set::empty()
            },
            _ => set![q],
        }
    }
}

/// A live node `q` of a canonical NFA, reached at `pos`, leads to acceptance
/// exactly at `end`.
pub open spec fn live_accepts(
    st: Seq<NfaOp>,
    q: usize,
    s: Seq<u8>,
    pos: int,
    end: int,
    cs: bool,
) -> bool {
    match st[q as int] {
        NfaOp::Any { .. } => pos < end && unit_match(decode_from(st, q - 1), s, pos + 1, end, cs),
        _ => unit_match(decode_from(st, q as int), s, pos, end, cs),
    }
}

/// Some node of `r` leads to acceptance exactly at `end`.
pub open spec fn set_accepts(
    st: Seq<NfaOp>,
    r: Set<usize>,
    s: Seq<u8>,
    pos: int,
    end: int,
    cs: bool,
) -> bool {
    exists|q: usize| r.contains(q) && #[trigger] live_accepts(st, q, s, pos, end, cs)
}

/// The nodes reached from live node `q` by consuming byte `c` (then closing
/// at `pos1`).
pub open spec fn step_set(st: Seq<NfaOp>, q: usize, c: u8, s: Seq<u8>, pos1: int, cs: bool) -> Set<
    usize,
> {
    match st[q as int] {
        NfaOp::Any { out } => eclose(st, out, s, pos1),
        NfaOp::Char { arg, out } => if spec_char_matches(arg, c, cs) {
            eclose(st, out, s, pos1)
        } else {
            Set::empty()
        },
        _ => Set::empty(),
    }
}

pub open spec fn edge_ok(st: Seq<NfaOp>, q: usize, t: usize) -> bool {
    t < st.len() && (t > q || is_live(st[t as int]))
}

pub open spec fn edges_ok(st: Seq<NfaOp>, q: usize) -> bool {
    match st[q as int] {
        NfaOp::Char { out, .. } => out < st.len(),
        NfaOp::Any { out } => out < st.len(),
        NfaOp::Split { out, out1 } => edge_ok(st, q, out) && edge_ok(st, q, out1),
        NfaOp::Assert { out, .. } => edge_ok(st, q, out),
        NfaOp::Match => true,
    }
}

/// Every edge is in range, and epsilon edges go forwards or onto live nodes.
pub open spec fn wf_edges(st: Seq<NfaOp>) -> bool {
    forall|q: usize| q < st.len() ==> #[trigger] edges_ok(st, q)
}

/// Index of the entry node of unit `k`.
pub open spec fn entry(us: Seq<Unit>, k: int) -> int {
    units_size(us.take(k))
}

proof fn lemma_eclose_live(st: Seq<NfaOp>, i: usize, s: Seq<u8>, pos: int)
    ensures
        forall|q: usize| #[trigger]
            eclose(st, i, s, pos).contains(q) ==> q < st.len() && is_live(st[q as int]),
    decreases st.len() - i,
{
    if i < st.len() {
        match st[i as int] {
            NfaOp::Split { out, out1 } => {
                if out > i && out < st.len() {
                    lemma_eclose_live(st, out, s, pos);
                }
                if out1 > i && out1 < st.len() {
                    lemma_eclose_live(st, out1, s, pos);
                }
                assert forall|q: usize| #[trigger]
                    eclose(st, i, s, pos).contains(q) implies q < st.len() && is_live(
                    st[q as int],
                ) by {
                    if out > i && out < st.len() && eclose(st, out, s, pos).contains(q) {
                    } else if out1 > i && out1 < st.len() && eclose(st, out1, s, pos).contains(q) {
                    } else {
                    }
                }
            },
            NfaOp::Assert { arg, out } => {
                if out > i && out < st.len() {
                    lemma_eclose_live(st, out, s, pos);
                }
                assert forall|q: usize| #[trigger]
                    eclose(st, i, s, pos).contains(q) implies q < st.len() && is_live(
                    st[q as int],
                ) by {
                    if assert_holds(s, pos, arg) {
                        if out > i && out < st.len() {
                            assert(eclose(st, out, s, pos).contains(q));
                        } else if out < st.len() && is_live(st[out as int]) {
                            assert(set![out].contains(q));
                            assert(q == out);
                        } else {
                            assert(Set::<usize>::empty().contains(q));
                        }
                    } else {
                        assert(Set::<usize>::empty().contains(q));
                    }
                }
            },
            NfaOp::Char { .. } => {
                assert(eclose(st, i, s, pos) =~= set![i]);
            },
            NfaOp::Any { .. } => {
                assert(eclose(st, i, s, pos) =~= set![i]);
            },
            NfaOp::Match => {
                assert(eclose(st, i, s, pos) =~= set![i]);
            },
        }
    } else {
        assert(eclose(st, i, s, pos) =~= Set::<usize>::empty());
    }
}

proof fn lemma_units_size_nonneg(us: Seq<Unit>)
    ensures
        units_size(us) >= 0,
    decreases us.len(),
{
    if us.len() > 0 {
        lemma_units_size_nonneg(us.drop_last());
    }
}

/// Unit `k` occupies `[entry(k), entry(k+1))` and its nodes sit there.
proof fn lemma_layout(us: Seq<Unit>, k: int)
    requires
        0 <= k < us.len(),
    ensures
        entry(us, k) >= 0,
        entry(us, k + 1) == entry(us, k) + unit_size(us[k]),
        entry(us, k + 1) <= units_size(us),
        forall|j: int|
            0 <= j < unit_size(us[k]) ==> unit_seq_nodes(us)[entry(us, k) + j] == #[trigger] unit_nodes(
                us[k],
                entry(us, k),
            )[j],
    decreases us.len(),
{
    let n = us.len();
    let us1 = us.drop_last();
    lemma_unit_seq_nodes_len(us1);
    lemma_unit_seq_nodes_len(us);
    lemma_units_size_nonneg(us.take(k));
    assert(us.take(k + 1).drop_last() =~= us.take(k));
    if k < n - 1 {
        lemma_layout(us1, k);
        assert(us1.take(k) =~= us.take(k));
        assert(us1.take(k + 1) =~= us.take(k + 1));
    } else {
        assert(us.take(k) =~= us1);
        assert(us.take(k + 1) =~= us);
    }
}

/// Each node index below the final `Match` lies in exactly one unit.
proof fn lemma_locate(us: Seq<Unit>, q: int) -> (k: int)
    requires
        0 <= q < units_size(us),
    ensures
        0 <= k < us.len(),
        entry(us, k) <= q < entry(us, k) + unit_size(us[k]),
    decreases us.len(),
{
    let n = us.len();
    let us1 = us.drop_last();
    if n == 0 {
        assert(false);
        0
    } else if q < units_size(us1) {
        let k = lemma_locate(us1, q);
        assert(us1.take(k) =~= us.take(k));
        k
    } else {
        assert(us.take(n - 1) =~= us1);
        n - 1
    }
}

proof fn lemma_canon_basics(us: Seq<Unit>)
    ensures
        canon_nfa(us).len() == units_size(us) + 1,
        canon_nfa(us)[units_size(us)] == NfaOp::Match,
        entry(us, us.len() as int) == units_size(us),
        entry(us, 0) == 0,
        units_size(us) >= 0,
        forall|k: int, j: int|
            0 <= k < us.len() && 0 <= j < unit_size(us[k]) ==> canon_nfa(us)[entry(us, k) + j]
                == #[trigger] unit_nodes(us[k], entry(us, k))[j],
{
    lemma_unit_seq_nodes_len(us);
    assert(us.take(us.len() as int) =~= us);
    assert(us.take(0) =~= Seq::<Unit>::empty());
    assert forall|k: int, j: int|
        0 <= k < us.len() && 0 <= j < unit_size(us[k]) implies canon_nfa(us)[entry(us, k) + j]
        == #[trigger] unit_nodes(us[k], entry(us, k))[j] by {
        lemma_layout(us, k);
    }
}

/// Reading back a canonical NFA from the entry of unit `k` yields the units
/// from `k` on.
proof fn lemma_decode(us: Seq<Unit>, k: int)
    requires
        0 <= k <= us.len(),
        units_size(us) + 1 <= usize::MAX,
    ensures
        decode_from(canon_nfa(us), entry(us, k)) == us.skip(k),
    decreases us.len() - k,
{
    let st = canon_nfa(us);
    lemma_canon_basics(us);
    if k == us.len() {
        assert(us.skip(k) =~= Seq::<Unit>::empty());
    } else {
        lemma_layout(us, k);
        lemma_decode(us, k + 1);
        let e = entry(us, k);
        let e1 = entry(us, k + 1);
        assert(us.skip(k) =~= seq![us[k]] + us.skip(k + 1));
        if k + 1 < us.len() {
            lemma_layout(us, k + 1);
            assert(st[e1] == unit_nodes(us[k + 1], e1)[0]);
        }
        match us[k] {
            Unit::Lit(c) => {
                assert(st[e] == unit_nodes(us[k], e)[0]);
            },
            Unit::Plus(c) => {
                assert(st[e] == unit_nodes(us[k], e)[0]);
                assert(st[e + 1] == unit_nodes(us[k], e)[1]);
            },
            Unit::Glob => {
                assert(st[e] == unit_nodes(us[k], e)[0]);
            },
            Unit::Assert(a) => {
                assert(st[e] == unit_nodes(us[k], e)[0]);
            },
        }
    }
}

/// The canonical NFA of `us` decodes back to `us`.
pub proof fn lemma_canon_decode(us: Seq<Unit>)
    requires
        units_size(us) + 1 <= usize::MAX,
    ensures
        decode_units(canon_nfa(us)) == us,
        is_canonical(canon_nfa(us)),
{
    lemma_canon_basics(us);
    lemma_decode(us, 0);
    assert(us.skip(0) =~= us);
}

proof fn lemma_canon_wf(us: Seq<Unit>)
    requires
        units_size(us) + 1 <= usize::MAX,
    ensures
        wf_edges(canon_nfa(us)),
{
    let st = canon_nfa(us);
    lemma_canon_basics(us);
    assert forall|q: usize| q < st.len() implies #[trigger] edges_ok(st, q) by {
        if q < units_size(us) {
            let k = lemma_locate(us, q as int);
            lemma_layout(us, k);
            let e = entry(us, k);
            assert(st[q as int] == unit_nodes(us[k], e)[q - e]);
            assert(st[e] == unit_nodes(us[k], e)[0]);
        }
    }
}

proof fn lemma_skip_unfold(us: Seq<Unit>, k: int)
    requires
        0 <= k < us.len(),
    ensures
        us.skip(k).len() > 0,
        us.skip(k)[0] == us[k],
        us.skip(k).drop_first() == us.skip(k + 1),
{
    assert(us.skip(k).drop_first() =~= us.skip(k + 1));
}

/// The closure of unit `k`'s entry accepts at `end` exactly when the units
/// from `k` match `s[pos..end]`.
proof fn lemma_closure(us: Seq<Unit>, k: int, s: Seq<u8>, pos: int, end: int, cs: bool)
    requires
        0 <= k <= us.len(),
        units_size(us) + 1 <= usize::MAX,
        0 <= pos,
    ensures
        unit_match(us.skip(k), s, pos, end, cs) == set_accepts(
            canon_nfa(us),
            eclose(canon_nfa(us), entry(us, k) as usize, s, pos),
            s,
            pos,
            end,
            cs,
        ),
    decreases us.len() - k,
{
    let st = canon_nfa(us);
    lemma_canon_basics(us);
    lemma_decode(us, k);
    let e = entry(us, k);
    let eu = e as usize;
    if k == us.len() {
        assert(eclose(st, eu, s, pos) =~= set![eu]);
        assert(us.skip(k) =~= Seq::<Unit>::empty());
        if unit_match(us.skip(k), s, pos, end, cs) {
            assert(live_accepts(st, eu, s, pos, end, cs));
        }
    } else {
        lemma_layout(us, k);
        lemma_skip_unfold(us, k);
        assert(st[e] == unit_nodes(us[k], e)[0]);
        match us[k] {
            Unit::Lit(c) => {
                assert(eclose(st, eu, s, pos) =~= set![eu]);
                if unit_match(us.skip(k), s, pos, end, cs) {
                    assert(live_accepts(st, eu, s, pos, end, cs));
                }
            },
            Unit::Plus(c) => {
                assert(eclose(st, eu, s, pos) =~= set![eu]);
                if unit_match(us.skip(k), s, pos, end, cs) {
                    assert(live_accepts(st, eu, s, pos, end, cs));
                }
            },
            Unit::Glob => {
                lemma_closure(us, k + 1, s, pos, end, cs);
                assert(st[e + 1] == unit_nodes(us[k], e)[1]);
                let a = (e + 1) as usize;
                let n1 = (e + 2) as usize;
                assert(eclose(st, a, s, pos) =~= set![a]);
                assert(eclose(st, eu, s, pos) =~= set![a].union(eclose(st, n1, s, pos)));
                assert(live_accepts(st, a, s, pos, end, cs) == (pos < end && unit_match(
                    us.skip(k),
                    s,
                    pos + 1,
                    end,
                    cs,
                )));
                if unit_match(us.skip(k), s, pos, end, cs) {
                    if unit_match(us.skip(k + 1), s, pos, end, cs) {
                    } else {
                        assert(live_accepts(st, a, s, pos, end, cs));
                    }
                }
            },
            Unit::Assert(arg) => {
                lemma_closure(us, k + 1, s, pos, end, cs);
                let n1 = (e + 1) as usize;
                if assert_holds(s, pos, arg) {
                    assert(eclose(st, eu, s, pos) =~= eclose(st, n1, s, pos));
                } else {
                    assert(eclose(st, eu, s, pos) =~= Set::<usize>::empty());
                }
            },
        }
    }
}

/// One consuming step from a live node agrees with the unit semantics.
proof fn lemma_step(us: Seq<Unit>, q: usize, s: Seq<u8>, pos: int, end: int, cs: bool)
    requires
        units_size(us) + 1 <= usize::MAX,
        q < canon_nfa(us).len(),
        is_live(canon_nfa(us)[q as int]),
        0 <= pos < s.len(),
        pos + 1 <= end,
    ensures
        live_accepts(canon_nfa(us), q, s, pos, end, cs) == set_accepts(
            canon_nfa(us),
            step_set(canon_nfa(us), q, s[pos], s, pos + 1, cs),
            s,
            pos + 1,
            end,
            cs,
        ),
{
    let st = canon_nfa(us);
    lemma_canon_basics(us);
    if q as int == units_size(us) {
        lemma_decode(us, us.len() as int);
        assert(us.skip(us.len() as int) =~= Seq::<Unit>::empty());
        assert(step_set(st, q, s[pos], s, pos + 1, cs) =~= Set::<usize>::empty());
    } else {
        let k = lemma_locate(us, q as int);
        lemma_layout(us, k);
        lemma_decode(us, k);
        lemma_skip_unfold(us, k);
        let e = entry(us, k);
        assert(st[q as int] == unit_nodes(us[k], e)[q - e]);
        assert(st[e] == unit_nodes(us[k], e)[0]);
        match us[k] {
            Unit::Lit(c) => {
                lemma_closure(us, k + 1, s, pos + 1, end, cs);
            },
            Unit::Plus(c) => {
                lemma_closure(us, k + 1, s, pos + 1, end, cs);
                assert(st[e + 1] == unit_nodes(us[k], e)[1]);
                let sp = (e + 1) as usize;
                let eu = e as usize;
                let n1 = (e + 2) as usize;
                assert(eclose(st, sp, s, pos + 1) =~= set![eu].union(eclose(st, n1, s, pos + 1)));
                assert(live_accepts(st, eu, s, pos + 1, end, cs) == unit_match(
                    us.skip(k),
                    s,
                    pos + 1,
                    end,
                    cs,
                ));
                if live_accepts(st, q, s, pos, end, cs) {
                    if unit_match(us.skip(k + 1), s, pos + 1, end, cs) {
                    } else {
                        assert(live_accepts(st, eu, s, pos + 1, end, cs));
                    }
                }
            },
            Unit::Glob => {
                assert(st[e + 1] == unit_nodes(us[k], e)[1]);
                lemma_closure(us, k, s, pos + 1, end, cs);
            },
            Unit::Assert(a) => {},
        }
    }
}

/// A live node accepts at its own position exactly when it is `Match`.
proof fn lemma_accept_here(us: Seq<Unit>, q: usize, s: Seq<u8>, pos: int, cs: bool)
    requires
        units_size(us) + 1 <= usize::MAX,
        q < canon_nfa(us).len(),
        is_live(canon_nfa(us)[q as int]),
    ensures
        live_accepts(canon_nfa(us), q, s, pos, pos, cs) == (canon_nfa(us)[q as int] is Match),
{
    let st = canon_nfa(us);
    lemma_canon_basics(us);
    if q as int == units_size(us) {
        lemma_decode(us, us.len() as int);
        assert(us.skip(us.len() as int) =~= Seq::<Unit>::empty());
    } else {
        let k = lemma_locate(us, q as int);
        lemma_layout(us, k);
        lemma_decode(us, k);
        lemma_skip_unfold(us, k);
        let e = entry(us, k);
        assert(st[q as int] == unit_nodes(us[k], e)[q - e]);
        assert(st[e] == unit_nodes(us[k], e)[0]);
    }
}

// ---------------------------------------------------------------------------
// NFA simulation
// ---------------------------------------------------------------------------

/// Number of nodes not yet marked with generation `g`.
spec fn count_unseen(seen: Seq<u64>, g: u64) -> nat
    decreases seen.len(),
{
    if seen.len() == 0 {
        0
    } else {
        count_unseen(seen.drop_last(), g) + (if seen.last() != g {
            1nat
        } else {
            0nat
        })
    }
}

proof fn lemma_count_mark(seen: Seq<u64>, g: u64, i: int)
    requires
        0 <= i < seen.len(),
        seen[i] != g,
    ensures
        count_unseen(seen.update(i, g), g) + 1 == count_unseen(seen, g),
    decreases seen.len(),
{
    let s2 = seen.update(i, g);
    if i < seen.len() - 1 {
        assert(s2.drop_last() =~= seen.drop_last().update(i, g));
        lemma_count_mark(seen.drop_last(), g, i);
    } else {
        assert(s2.drop_last() =~= seen.drop_last());
    }
}

proof fn lemma_count_mono(a: Seq<u64>, b: Seq<u64>, g: u64)
    requires
        a.len() == b.len(),
        forall|i: int| 0 <= i < a.len() && a[i] == g ==> b[i] == g,
    ensures
        count_unseen(b, g) <= count_unseen(a, g),
    decreases a.len(),
{
    if a.len() > 0 {
        lemma_count_mono(a.drop_last(), b.drop_last(), g);
    }
}

/// Every node marked `g` has its whole closure on `list`.
spec fn seen_closed(
    st: Seq<NfaOp>,
    list: Seq<usize>,
    seen: Seq<u64>,
    g: u64,
    s: Seq<u8>,
    pos: int,
) -> bool {
    forall|q: usize|
        q < st.len() && seen[q as int] == g ==> forall|r: usize| #[trigger]
            eclose(st, q, s, pos).contains(r) ==> list.contains(r)
}

/// Everything on `list` is a live node.
pub open spec fn all_live(st: Seq<NfaOp>, list: Seq<usize>) -> bool {
    forall|r: usize| #[trigger] list.contains(r) ==> r < st.len() && is_live(st[r as int])
}

/// Add the epsilon closure of node `idx` (at absolute position `abspos` of
/// the whole string) to `list`, skipping nodes already marked with
/// `generation` and marking every node it follows.
fn nfa_addstate(
    states: &[NfaOp],
    idx: usize,
    list: &mut Vec<usize>,
    seen: &mut Vec<u64>,
    generation: u64,
    string_start: &[u8],
    abspos: usize,
)
    requires
        wf_edges(states@),
        idx < states@.len(),
        old(seen)@.len() == states@.len(),
        all_live(states@, old(list)@),
        forall|q: usize|
            q < states@.len() && old(seen)@[q as int] == generation && is_live(states@[q as int])
                ==> old(list)@.contains(q),
        !is_live(states@[idx as int]) ==> forall|q: usize|
            q < states@.len() && old(seen)@[q as int] == generation && q >= idx ==> forall|r: usize|
                #[trigger] eclose(states@, q, string_start@, abspos as int).contains(r)
                    ==> old(list)@.contains(r),
    ensures
        forall|r: usize| #[trigger]
            final(list)@.contains(r) <==> (old(list)@.contains(r) || eclose(
                states@,
                idx,
                string_start@,
                abspos as int,
            ).contains(r)),
        all_live(states@, final(list)@),
        final(seen)@.len() == old(seen)@.len(),
        forall|q: int|
            0 <= q < old(seen)@.len() && old(seen)@[q] == generation ==> final(seen)@[q]
                == generation,
        forall|q: int|
            0 <= q < old(seen)@.len() && final(seen)@[q] != old(seen)@[q] ==> final(seen)@[q]
                == generation,
        is_live(states@[idx as int]) ==> forall|q: int|
            0 <= q < old(seen)@.len() && final(seen)@[q] != old(seen)@[q] ==> q == idx,
        forall|q: usize|
            q < states@.len() && final(seen)@[q as int] == generation && old(seen)@[q as int]
                != generation ==> (!is_live(states@[q as int]) ==> q >= idx) && forall|r: usize|
                #[trigger] eclose(states@, q, string_start@, abspos as int).contains(r)
                    ==> final(list)@.contains(r),
        forall|q: usize|
            q < states@.len() && final(seen)@[q as int] == generation && is_live(states@[q as int])
                ==> final(list)@.contains(q),
    decreases count_unseen(old(seen)@, generation),
{
    let ghost st = states@;
    let ghost s = string_start@;
    let ghost p = abspos as int;
    proof {
        lemma_eclose_live(st, idx, s, p);
    }
    if seen[idx] == generation {
        return;
    }
    let ghost seen0 = seen@;
    proof {
        lemma_count_mark(seen0, generation, idx as int);
    }
    seen[idx] = generation;
    assert(edges_ok(st, idx));
    match &states[idx] {
        NfaOp::Split { out, out1 } => {
            let o = *out;
            let o1 = *out1;
            let ghost list1 = list@;
            let ghost seen1 = seen@;
            nfa_addstate(states, o, list, seen, generation, string_start, abspos);
            let ghost list2 = list@;
            let ghost seen2 = seen@;
            proof {
                lemma_count_mono(seen1, seen2, generation);
            }
            nfa_addstate(states, o1, list, seen, generation, string_start, abspos);
            proof {
                assert forall|r: usize| #[trigger]
                    eclose(st, idx, s, p).contains(r) implies list@.contains(r) by {
                    if o > idx && o < st.len() {
                    } else if o < st.len() && is_live(st[o as int]) {
                        assert(eclose(st, o, s, p).contains(o));
                    }
                    if o1 > idx && o1 < st.len() {
                    } else if o1 < st.len() && is_live(st[o1 as int]) {
                        assert(eclose(st, o1, s, p).contains(o1));
                    }
                }
                assert forall|r: usize| #[trigger] list@.contains(r) implies (list1.contains(r)
                    || eclose(st, idx, s, p).contains(r)) by {
                    if list1.contains(r) {
                    } else if eclose(st, o, s, p).contains(r) {
                        if !(o > idx && o < st.len()) {
                            assert(eclose(st, o, s, p) =~= set![o]);
                        }
                    } else {
                        assert(eclose(st, o1, s, p).contains(r));
                        if !(o1 > idx && o1 < st.len()) {
                            assert(eclose(st, o1, s, p) =~= set![o1]);
                        }
                    }
                }
            }
        },
        NfaOp::Assert { arg, out } => {
            let o = *out;
            let want_boundary = *arg == ASSERT_BOUND;
            if string_start.len() > 0 && is_word_boundary(string_start, abspos) == want_boundary {
                let ghost list1 = list@;
                nfa_addstate(states, o, list, seen, generation, string_start, abspos);
                proof {
                    assert forall|r: usize| #[trigger]
                        eclose(st, idx, s, p).contains(r) implies list@.contains(r) by {
                        if !(o > idx && o < st.len()) {
                            assert(eclose(st, o, s, p).contains(o));
                        }
                    }
                    assert forall|r: usize| #[trigger] list@.contains(r) implies (list1.contains(
                        r,
                    ) || eclose(st, idx, s, p).contains(r)) by {
                        if !list1.contains(r) && !(o > idx && o < st.len()) {
                            assert(eclose(st, o, s, p) =~= set![o]);
                        }
                    }
                }
            } else {
                assert(eclose(st, idx, s, p) =~= Set::<usize>::empty());
            }
        },
        _ => {
            let ghost l0 = list@;
            list.push(idx);
            proof {
                assert(is_live(st[idx as int]));
                assert(eclose(st, idx, s, p) =~= set![idx]);
                lemma_push_contains(l0, idx);
            }
        },
    }
}

proof fn lemma_push_contains(l0: Seq<usize>, x: usize)
    ensures
        forall|r: usize| #[trigger] l0.push(x).contains(r) <==> (l0.contains(r) || r == x),
{
    assert forall|r: usize| #[trigger] l0.push(x).contains(r) <==> (l0.contains(r) || r == x) by {
        let l1 = l0.push(x);
        if l1.contains(r) {
            let k = choose|k: int| 0 <= k < l1.len() && l1[k] == r;
            if k < l0.len() {
                assert(l0[k] == r);
            }
        }
        if l0.contains(r) {
            let k = choose|k: int| 0 <= k < l0.len() && l0[k] == r;
            assert(l1[k] == r);
        }
        if r == x {
            assert(l1[l0.len() as int] == x);
        }
    }
}

/// An accepting node is on `list`.
pub fn nfa_has_match(states: &[NfaOp], list: &[usize]) -> (r: bool)
    requires
        forall|x: usize| #[trigger] list@.contains(x) ==> x < states@.len(),
    ensures
        r == exists|q: usize| list@.contains(q) && (#[trigger] states@[q as int]) is Match,
{
    let mut i: usize = 0;
    while i < list.len()
        invariant
            0 <= i <= list@.len(),
            forall|x: usize| #[trigger] list@.contains(x) ==> x < states@.len(),
            forall|k: int| 0 <= k < i ==> !(states@[list@[k] as int] is Match),
        decreases list@.len() - i,
    {
        assert(list@.contains(list@[i as int]));
        if let NfaOp::Match = &states[list[i]] {
            assert(list@.contains(list@[i as int]));
            return true;
        }
        i += 1;
    }
    proof {
        assert forall|q: usize| list@.contains(q) implies !(#[trigger] states@[q as int] is Match) by {
            let k = choose|k: int| 0 <= k < list@.len() && list@[k] == q;
        }
    }
    false
}

/// Some node on `l` leads to acceptance exactly at `end`.
pub open spec fn list_accepts(
    st: Seq<NfaOp>,
    l: Seq<usize>,
    s: Seq<u8>,
    pos: int,
    end: int,
    cs: bool,
) -> bool {
    exists|q: usize| l.contains(q) && #[trigger] live_accepts(st, q, s, pos, end, cs)
}

proof fn lemma_list_set_accepts(
    st: Seq<NfaOp>,
    l: Seq<usize>,
    r: Set<usize>,
    s: Seq<u8>,
    pos: int,
    end: int,
    cs: bool,
)
    requires
        forall|x: usize| #[trigger] l.contains(x) <==> r.contains(x),
    ensures
        list_accepts(st, l, s, pos, end, cs) == set_accepts(st, r, s, pos, end, cs),
{
    if list_accepts(st, l, s, pos, end, cs) {
        let q = choose|q: usize| l.contains(q) && #[trigger] live_accepts(st, q, s, pos, end, cs);
        assert(r.contains(q));
    }
    if set_accepts(st, r, s, pos, end, cs) {
        let q = choose|q: usize| r.contains(q) && #[trigger] live_accepts(st, q, s, pos, end, cs);
        assert(l.contains(q));
    }
}

/// Consuming `s[pos]` from every node of `cl` yields exactly `nl`, so the
/// two lists accept at the same later ends.
proof fn lemma_step_all(
    us: Seq<Unit>,
    cl: Seq<usize>,
    nl: Seq<usize>,
    s: Seq<u8>,
    pos: int,
    end: int,
    cs: bool,
)
    requires
        units_size(us) + 1 <= usize::MAX,
        all_live(canon_nfa(us), cl),
        0 <= pos < s.len(),
        pos + 1 <= end,
        forall|r: usize| #[trigger]
            nl.contains(r) <==> exists|i: int|
                0 <= i < cl.len() && step_set(canon_nfa(us), cl[i], s[pos], s, pos + 1, cs).contains(
                    r,
                ),
    ensures
        list_accepts(canon_nfa(us), cl, s, pos, end, cs) == list_accepts(
            canon_nfa(us),
            nl,
            s,
            pos + 1,
            end,
            cs,
        ),
{
    let st = canon_nfa(us);
    let c = s[pos];
    if list_accepts(st, cl, s, pos, end, cs) {
        let q = choose|q: usize| cl.contains(q) && #[trigger] live_accepts(st, q, s, pos, end, cs);
        lemma_step(us, q, s, pos, end, cs);
        let q2 = choose|q2: usize|
            step_set(st, q, c, s, pos + 1, cs).contains(q2) && #[trigger] live_accepts(
                st,
                q2,
                s,
                pos + 1,
                end,
                cs,
            );
        let i = choose|i: int| 0 <= i < cl.len() && cl[i] == q;
        assert(nl.contains(q2));
    }
    if list_accepts(st, nl, s, pos + 1, end, cs) {
        let q2 = choose|q2: usize|
            nl.contains(q2) && #[trigger] live_accepts(st, q2, s, pos + 1, end, cs);
        let i = choose|i: int|
            0 <= i < cl.len() && step_set(st, cl[i], c, s, pos + 1, cs).contains(q2);
        let q = cl[i];
        assert(cl.contains(q));
        lemma_step(us, q, s, pos, end, cs);
        assert(live_accepts(st, q, s, pos, end, cs));
    }
}

/// A list of live nodes accepts at its own position exactly when it holds
/// `Match`.
proof fn lemma_list_accept_here(us: Seq<Unit>, l: Seq<usize>, s: Seq<u8>, pos: int, cs: bool)
    requires
        units_size(us) + 1 <= usize::MAX,
        all_live(canon_nfa(us), l),
    ensures
        list_accepts(canon_nfa(us), l, s, pos, pos, cs) == exists|q: usize|
            l.contains(q) && (#[trigger] canon_nfa(us)[q as int]) is Match,
{
    let st = canon_nfa(us);
    if list_accepts(st, l, s, pos, pos, cs) {
        let q = choose|q: usize| l.contains(q) && #[trigger] live_accepts(st, q, s, pos, pos, cs);
        lemma_accept_here(us, q, s, pos, cs);
        assert(st[q as int] is Match);
    }
    if exists|q: usize| l.contains(q) && (#[trigger] st[q as int]) is Match {
        let q = choose|q: usize| l.contains(q) && (#[trigger] st[q as int]) is Match;
        lemma_accept_here(us, q, s, pos, cs);
        assert(live_accepts(st, q, s, pos, pos, cs));
    }
}

/// Run the NFA `states` against `string` from byte `start`, evaluating
/// `\\b`/`\\B` against the whole string. With `full_match` the run must
/// consume the rest of the string; otherwise reaching `Match` anywhere
/// suffices. Linear in `states.len() * string.len()`, no backtracking.
pub fn nfa_match(
    states: &[NfaOp],
    string: &[u8],
    start: usize,
    case_sensitive: bool,
    full_match: bool,
) -> (r: bool)
    requires
        is_canonical(states@),
        string@.len() < usize::MAX,
    ensures
        r == unit_run(decode_units(states@), string@, start as int, case_sensitive, full_match),
{
    let ghost us = decode_units(states@);
    let ghost st = states@;
    let ghost s = string@;
    let ghost cs = case_sensitive;
    let ghost re = run_end(s, start as int);
    let n = states.len();
    proof {
        lemma_canon_basics(us);
        lemma_canon_wf(us);
    }
    let mut clist: Vec<usize> = Vec::with_capacity(n);
    let mut nlist: Vec<usize> = Vec::with_capacity(n);
    let mut seen: Vec<u64> = vec![0u64; n];
    let mut generation: u64 = 0;
    let mut pos = start;
    generation += 1;
    proof {
        assert forall|q: int| 0 <= q < seen@.len() implies seen@[q] == 0 by {
            assert(cloned(0u64, seen@[q]));
        }
        assert(all_live(st, clist@));
    }
    nfa_addstate(states, 0, &mut clist, &mut seen, generation, string, pos);
    proof {
        lemma_eclose_live(st, 0, s, pos as int);
        assert forall|e: int| pos <= e <= re implies unit_match(us, s, start as int, e, cs)
            == list_accepts(st, clist@, s, pos as int, e, cs) by {
            lemma_closure(us, 0, s, pos as int, e, cs);
            assert(us.skip(0) =~= us);
            lemma_list_set_accepts(st, clist@, eclose(st, 0, s, pos as int), s, pos as int, e, cs);
        }
        lemma_list_accept_here(us, clist@, s, pos as int, cs);
    }
    if !full_match && nfa_has_match(states, &clist) {
        proof {
            assert(list_accepts(st, clist@, s, pos as int, pos as int, cs));
            assert(unit_match(us, s, start as int, start as int, cs));
        }
        return true;
    }
    while pos < string.len()
        invariant
            st == states@,
            s == string@,
            cs == case_sensitive,
            us == decode_units(st),
            st == canon_nfa(us),
            n == st.len(),
            st.len() == units_size(us) + 1,
            units_size(us) + 1 <= usize::MAX,
            wf_edges(st),
            s.len() < usize::MAX,
            re == run_end(s, start as int),
            start <= pos <= re,
            pos <= s.len() || pos == start,
            seen@.len() == st.len(),
            1 <= generation <= 1 + (pos - start),
            forall|q: int| 0 <= q < seen@.len() ==> seen@[q] <= generation,
            all_live(st, clist@),
            forall|e: int|
                pos <= e <= re ==> unit_match(us, s, start as int, e, cs) == #[trigger] list_accepts(
                    st,
                    clist@,
                    s,
                    pos as int,
                    e,
                    cs,
                ),
            !full_match ==> forall|e: int|
                start <= e <= pos ==> !#[trigger] unit_match(us, s, start as int, e, cs),
        ensures
            start <= pos <= re,
            all_live(st, clist@),
            forall|e: int|
                pos <= e <= re ==> unit_match(us, s, start as int, e, cs) == #[trigger] list_accepts(
                    st,
                    clist@,
                    s,
                    pos as int,
                    e,
                    cs,
                ),
            !full_match ==> forall|e: int|
                start <= e <= pos ==> !#[trigger] unit_match(us, s, start as int, e, cs),
            pos == re || clist@.len() == 0,
        decreases s.len() - pos,
    {
        let c = string[pos];
        generation += 1;
        nlist.clear();
        let mut j: usize = 0;
        while j < clist.len()
            invariant
                st == states@,
                s == string@,
                cs == case_sensitive,
                us == decode_units(st),
                st == canon_nfa(us),
                units_size(us) + 1 <= usize::MAX,
                wf_edges(st),
                pos < s.len(),
                s.len() < usize::MAX,
                c == s[pos as int],
                re == run_end(s, start as int),
                start <= pos,
                forall|e: int|
                    pos <= e <= re ==> unit_match(us, s, start as int, e, cs)
                        == #[trigger] list_accepts(st, clist@, s, pos as int, e, cs),
                !full_match ==> forall|e: int|
                    start <= e <= pos ==> !#[trigger] unit_match(us, s, start as int, e, cs),
                1 <= generation <= 2 + (pos - start),
                0 <= j <= clist@.len(),
                all_live(st, clist@),
                seen@.len() == st.len(),
                forall|q: int| 0 <= q < seen@.len() ==> seen@[q] <= generation,
                all_live(st, nlist@),
                seen_closed(st, nlist@, seen@, generation, s, pos + 1),
                forall|r: usize| #[trigger]
                    nlist@.contains(r) <==> exists|i: int|
                        0 <= i < j && step_set(st, clist@[i], c, s, pos + 1, cs).contains(r),
            decreases clist@.len() - j,
        {
            let q = clist[j];
            assert(clist@.contains(q));
            let ghost nl0 = nlist@;
            let ghost seen0 = seen@;
            let ghost q2 = q;
            assert(edges_ok(st, q));
            match &states[q] {
                NfaOp::Any { out } => {
                    let o = *out;
                    proof {
                        lemma_seen_closed_pre(st, nlist@, seen@, generation, s, pos + 1);
                    }
                    nfa_addstate(states, o, &mut nlist, &mut seen, generation, string, pos + 1);
                },
                NfaOp::Char { arg, out } => {
                    let o = *out;
                    if pattern_char_matches(*arg, c, case_sensitive) {
                        proof {
                            lemma_seen_closed_pre(st, nlist@, seen@, generation, s, pos + 1);
                        }
                        nfa_addstate(states, o, &mut nlist, &mut seen, generation, string, pos + 1);
                    }
                },
                _ => {},
            }
            proof {
                assert forall|x: int| 0 <= x < seen@.len() implies seen@[x] <= generation by {
                    if seen@[x] != seen0[x] {
                    }
                }
                assert forall|qq: usize|
                    qq < st.len() && seen@[qq as int] == generation implies forall|r: usize|
                    #[trigger] eclose(st, qq, s, pos + 1).contains(r) ==> nlist@.contains(r) by {
                    if seen0[qq as int] == generation {
                        assert forall|r: usize| #[trigger]
                            eclose(st, qq, s, pos + 1).contains(r) implies nlist@.contains(r) by {
                            assert(nl0.contains(r));
                        }
                    }
                }
                assert forall|r: usize|
                    (exists|i: int|
                        0 <= i < j + 1 && step_set(st, clist@[i], c, s, pos + 1, cs).contains(
                            r,
                        )) implies #[trigger] nlist@.contains(r) by {
                    let i = choose|i: int|
                        0 <= i < j + 1 && step_set(st, clist@[i], c, s, pos + 1, cs).contains(r);
                    if i < j {
                        assert(exists|i2: int|
                            0 <= i2 < j && step_set(st, clist@[i2], c, s, pos + 1, cs).contains(r));
                        assert(nl0.contains(r));
                    }
                }
                assert forall|r: usize| #[trigger]
                    nlist@.contains(r) implies exists|i: int|
                        0 <= i < j + 1 && step_set(st, clist@[i], c, s, pos + 1, cs).contains(r) by {
                    if nl0.contains(r) {
                        let i = choose|i: int|
                            0 <= i < j && step_set(st, clist@[i], c, s, pos + 1, cs).contains(r);
                        assert(0 <= i < j + 1);
                    } else {
                        assert(step_set(st, clist@[j as int], c, s, pos + 1, cs).contains(r));
                    }
                }
            }
            j += 1;
        }
        proof {
            assert forall|e: int| pos + 1 <= e <= re implies unit_match(us, s, start as int, e, cs)
                == #[trigger] list_accepts(st, nlist@, s, pos + 1, e, cs) by {
                lemma_step_all(us, clist@, nlist@, s, pos as int, e, cs);
            }
            lemma_list_accept_here(us, nlist@, s, pos + 1, cs);
        }
        std::mem::swap(&mut clist, &mut nlist);
        pos += 1;
        if clist.len() == 0 {
            proof {
                assert(!list_accepts(st, clist@, s, pos as int, pos as int, cs));
            }
            break;
        }
        if !full_match && nfa_has_match(states, &clist) {
            proof {
                assert(unit_match(us, s, start as int, pos as int, cs));
            }
            return true;
        }
    }
    let r = nfa_has_match(states, &clist);
    proof {
        lemma_list_accept_here(us, clist@, s, pos as int, cs);
        if clist@.len() == 0 {
            assert(!list_accepts(st, clist@, s, pos as int, re, cs));
        }
        if full_match {
        } else {
            if r {
                assert(unit_match(us, s, start as int, pos as int, cs));
            } else {
                assert forall|e: int| start <= e <= re implies !#[trigger] unit_match(
                    us,
                    s,
                    start as int,
                    e,
                    cs,
                ) by {
                    if e >= pos {
                        assert(list_accepts(st, clist@, s, pos as int, e, cs) == unit_match(
                            us,
                            s,
                            start as int,
                            e,
                            cs,
                        ));
                        if clist@.len() == 0 {
                            assert(!list_accepts(st, clist@, s, pos as int, e, cs));
                        }
                    }
                }
            }
        }
    }
    r
}

proof fn lemma_seen_closed_pre(
    st: Seq<NfaOp>,
    l: Seq<usize>,
    seen: Seq<u64>,
    g: u64,
    s: Seq<u8>,
    pos: int,
)
    requires
        seen_closed(st, l, seen, g, s, pos),
    ensures
        forall|q: usize|
            q < st.len() && seen[q as int] == g && is_live(st[q as int]) ==> l.contains(q),
        forall|q: usize|
            q < st.len() && seen[q as int] == g ==> forall|r: usize| #[trigger]
                eclose(st, q, s, pos).contains(r) ==> l.contains(r),
{
    assert forall|q: usize|
        q < st.len() && seen[q as int] == g && is_live(st[q as int]) implies l.contains(q) by {
        assert(eclose(st, q, s, pos).contains(q));
    }
}

// ---------------------------------------------------------------------------
// Anchor strategy and public entry points
// ---------------------------------------------------------------------------

/// A run from some UTF-8 character boundary of `b` (including its end).
pub open spec fn boundary_run(us: Seq<Unit>, b: Seq<u8>, cs: bool, full_match: bool) -> bool {
    exists|i: int|
        0 <= i <= b.len() && is_char_boundary(b, i) && #[trigger] unit_run(us, b, i, cs, full_match)
}

/// Meaning of a parsed pattern against the bytes `b`: exact (`^…$`), prefix
/// (`^…`), suffix (`…$`) or substring (no anchor; an empty unanchored core
/// matches only the empty string).
pub open spec fn spec_match_with_anchors(
    core: Seq<u8>,
    start_anchored: bool,
    end_anchored: bool,
    b: Seq<u8>,
    cs: bool,
) -> bool {
    let us = units(core);
    if start_anchored && end_anchored {
        unit_run(us, b, 0, cs, true)
    } else if start_anchored {
        unit_run(us, b, 0, cs, false)
    } else if end_anchored {
        boundary_run(us, b, cs, true)
    } else if core.len() == 0 {
        b.len() == 0
    } else {
        boundary_run(us, b, cs, false)
    }
}

/// Meaning of a pattern (as bytes) against a string (as bytes).
pub open spec fn spec_pattern_match(pattern: Seq<u8>, s: Seq<u8>, cs: bool) -> bool {
    spec_match_with_anchors(
        spec_core(pattern),
        spec_start_anchored(pattern),
        spec_end_anchored(pattern),
        s,
        cs,
    )
}

/// Try the NFA from every UTF-8 character boundary of `s`, including its
/// end.
pub fn suffix_or_substring_loop(
    nfa: &[NfaOp],
    bytes: &[u8],
    s: &str,
    case_sensitive: bool,
    full_match: bool,
) -> (r: bool)
    requires
        is_canonical(nfa@),
        bytes@ == s.spec_bytes(),
        bytes@.len() < usize::MAX,
    ensures
        r == boundary_run(decode_units(nfa@), bytes@, case_sensitive, full_match),
{
    let ghost us = decode_units(nfa@);
    let mut i: usize = 0;
    while i <= bytes.len()
        invariant
            bytes@ == s.spec_bytes(),
            bytes@.len() < usize::MAX,
            is_canonical(nfa@),
            us == decode_units(nfa@),
            0 <= i <= bytes@.len() + 1,
            forall|k: int|
                0 <= k < i && is_char_boundary(bytes@, k) ==> !#[trigger] unit_run(
                    us,
                    bytes@,
                    k,
                    case_sensitive,
                    full_match,
                ),
        decreases bytes@.len() + 1 - i,
    {
        if s.is_char_boundary(i) && nfa_match(nfa, bytes, i, case_sensitive, full_match) {
            return true;
        }
        i += 1;
    }
    false
}

/// Pick the anchor strategy from the parse and run the compiled core
/// against `s`.
pub fn match_with_anchors(parsed: &ParsedPattern, s: &str, case_sensitive: bool) -> (r: bool)
    requires
        parsed.core@.len() * 2 + 2 <= usize::MAX,
        s.spec_bytes().len() < usize::MAX,
    ensures
        r == spec_match_with_anchors(
            parsed.core@,
            parsed.start_anchored,
            parsed.end_anchored,
            s.spec_bytes(),
            case_sensitive,
        ),
{
    let bytes = s.as_bytes();
    if parsed.start_anchored && parsed.end_anchored {
        let nfa = nfa_compile(&parsed.core);
        proof {
            lemma_compiled_canonical(parsed.core@, nfa@);
        }
        nfa_match(&nfa, bytes, 0, case_sensitive, true)
    } else if parsed.start_anchored {
        let nfa = nfa_compile(&parsed.core);
        proof {
            lemma_compiled_canonical(parsed.core@, nfa@);
        }
        nfa_match(&nfa, bytes, 0, case_sensitive, false)
    } else if parsed.end_anchored {
        let nfa = nfa_compile(&parsed.core);
        proof {
            lemma_compiled_canonical(parsed.core@, nfa@);
        }
        suffix_or_substring_loop(&nfa, bytes, s, case_sensitive, true)
    } else {
        if parsed.core.len() == 0 {
            return bytes.len() == 0;
        }
        let nfa = nfa_compile(&parsed.core);
        proof {
            lemma_compiled_canonical(parsed.core@, nfa@);
        }
        suffix_or_substring_loop(&nfa, bytes, s, case_sensitive, false)
    }
}

proof fn lemma_compiled_canonical(core: Seq<u8>, st: Seq<NfaOp>)
    requires
        st == canon_nfa(units(core)),
        st.len() <= 2 * core.len() + 1,
        core.len() * 2 + 2 <= usize::MAX,
    ensures
        is_canonical(st),
        decode_units(st) == units(core),
{
    lemma_canon_basics(units(core));
    lemma_canon_decode(units(core));
}

/// Match `s` against a pattern: `*` glob, `^`/`$` anchors, `\\^ \\$ \\* \\\\`
/// literals, `\\d \\D \\w \\W \\s \\S` classes, `\\b \\B` boundaries, `.`
/// (any byte but newline/CR) and the `+` quantifier. Without anchors the
/// pattern may occur anywhere, but an empty unanchored pattern matches only
/// the empty string. Case folding (when `case_sensitive` is false) is ASCII
/// only.
pub fn pattern_match(pattern: &str, s: &str, case_sensitive: bool) -> (r: bool)
    requires
        pattern.spec_bytes().len() * 2 + 2 <= usize::MAX,
        s.spec_bytes().len() < usize::MAX,
    ensures
        r == spec_pattern_match(pattern.spec_bytes(), s.spec_bytes(), case_sensitive),
{
    let parsed = parse_pattern(pattern);
    match_with_anchors(&parsed, s, case_sensitive)
}

/// A host-side rule pattern: a class-only pattern, or a class pattern and a
/// title pattern that must both match.
#[derive(Debug, Clone, PartialEq)]
pub enum Pattern {
    /// Matches the application class only.
    Single(String),
    /// Matches the class (first) and the title (second).
    Parts(String, String),
}

/// The UTF-8 bytes of a string view.
pub open spec fn utf8(s: Seq<char>) -> Seq<u8> {
    vstd::utf8::encode_utf8(s)
}

/// The meaning of a rule pattern against a window's class and title.
pub open spec fn spec_match_pattern(pattern: Pattern, app_class: Seq<char>, title: Seq<char>, cs: bool) -> bool {
    match pattern {
        Pattern::Single(p) => spec_pattern_match(utf8(p@), utf8(app_class), cs),
        Pattern::Parts(c, t) => spec_pattern_match(utf8(c@), utf8(app_class), cs)
            && spec_pattern_match(utf8(t@), utf8(title), cs),
    }
}

/// Pattern strings short enough to compile.
pub open spec fn pattern_fits(pattern: Pattern) -> bool {
    match pattern {
        Pattern::Single(p) => utf8(p@).len() * 2 + 2 <= usize::MAX,
        Pattern::Parts(c, t) => utf8(c@).len() * 2 + 2 <= usize::MAX && utf8(t@).len() * 2 + 2
            <= usize::MAX,
    }
}

/// Match a rule pattern against a window: a `Single` pattern sees only the
/// class (the title is never consulted); `Parts` needs both halves to match.
pub fn match_pattern(pattern: &Pattern, app_class: &str, title: &str, case_sensitive: bool) -> (r:
    bool)
    requires
        pattern_fits(*pattern),
        utf8(app_class@).len() < usize::MAX,
        utf8(title@).len() < usize::MAX,
    ensures
        r == spec_match_pattern(*pattern, app_class@, title@, case_sensitive),
{
    match pattern {
        Pattern::Single(p) => pattern_match(p.as_str(), app_class, case_sensitive),
        Pattern::Parts(c, t) => pattern_match(c.as_str(), app_class, case_sensitive)
            && pattern_match(t.as_str(), title, case_sensitive),
    }
}

// ---------------------------------------------------------------------------
// Laws
// ---------------------------------------------------------------------------

/// An empty pattern (no anchors, empty core) matches only the empty string;
/// it is not a catch-all.
pub proof fn law_empty_pattern_matches_only_empty(s: Seq<u8>, cs: bool)
    ensures
        spec_pattern_match(seq![], s, cs) == (s.len() == 0),
{
    let b: Seq<u8> = seq![];
    assert(pattern_len(b) == 0);
    assert(spec_core(b) =~= Seq::<u8>::empty());
}

/// The glob `*` matches every string, including the empty one.
pub proof fn law_glob_matches_everything(s: Seq<char>, cs: bool)
    ensures
        spec_pattern_match(seq![0x2Au8], utf8(s), cs),
{
    let p: Seq<u8> = seq![0x2Au8];
    let b = utf8(s);
    assert(first_nul(p, 1) == 1);
    assert(pattern_len(p) == 1);
    assert(!spec_start_anchored(p));
    assert(!spec_end_anchored(p));
    assert(pe_from(p, 1, 1, false) =~= Seq::<u8>::empty());
    assert(spec_core(p) =~= seq![GLOB_STAR]);
    assert(units_from(spec_core(p), 1) =~= Seq::<Unit>::empty());
    let us = units(spec_core(p));
    assert(us =~= seq![Unit::Glob]);
    assert(us.drop_first() =~= Seq::<Unit>::empty());
    assert(us[0] == Unit::Glob);
    assert(unit_match(us.drop_first(), b, 0, 0, cs));
    assert(unit_match(us, b, 0, 0, cs));
    assert(unit_run(us, b, 0, cs, false));
    vstd::utf8::encode_utf8_valid_utf8(s);
    vstd::utf8::is_char_boundary_start_end_of_seq(b);
    assert(is_char_boundary(b, 0));
}

proof fn lemma_unit_match_case_fold(us: Seq<Unit>, s: Seq<u8>, pos: int, end: int)
    requires
        unit_match(us, s, pos, end, true),
    ensures
        unit_match(us, s, pos, end, false),
    decreases us.len(), end - pos,
{
    if us.len() > 0 {
        match us[0] {
            Unit::Lit(c) => {
                lemma_unit_match_case_fold(us.drop_first(), s, pos + 1, end);
            },
            Unit::Plus(c) => {
                if unit_match(us.drop_first(), s, pos + 1, end, true) {
                    lemma_unit_match_case_fold(us.drop_first(), s, pos + 1, end);
                } else {
                    lemma_unit_match_case_fold(us, s, pos + 1, end);
                }
            },
            Unit::Glob => {
                if unit_match(us.drop_first(), s, pos, end, true) {
                    lemma_unit_match_case_fold(us.drop_first(), s, pos, end);
                } else {
                    lemma_unit_match_case_fold(us, s, pos + 1, end);
                }
            },
            Unit::Assert(a) => {
                lemma_unit_match_case_fold(us.drop_first(), s, pos, end);
            },
        }
    }
}

/// Whatever matches case-sensitively also matches case-insensitively.
pub proof fn law_case_sensitive_match_implies_insensitive(pattern: Seq<u8>, s: Seq<u8>)
    requires
        spec_pattern_match(pattern, s, true),
    ensures
        spec_pattern_match(pattern, s, false),
{
    let us = units(spec_core(pattern));
    let sa = spec_start_anchored(pattern);
    let ea = spec_end_anchored(pattern);
    if sa && ea {
        lemma_unit_match_case_fold(us, s, 0, run_end(s, 0));
    } else if sa {
        let e = choose|e: int| 0 <= e <= run_end(s, 0) && #[trigger] unit_match(us, s, 0, e, true);
        lemma_unit_match_case_fold(us, s, 0, e);
        assert(unit_match(us, s, 0, e, false));
    } else if ea {
        let i = choose|i: int|
            0 <= i <= s.len() && is_char_boundary(s, i) && #[trigger] unit_run(us, s, i, true, true);
        lemma_unit_match_case_fold(us, s, i, run_end(s, i));
        assert(unit_run(us, s, i, false, true));
    } else if spec_core(pattern).len() != 0 {
        let i = choose|i: int|
            0 <= i <= s.len() && is_char_boundary(s, i) && #[trigger] unit_run(us, s, i, true, false);
        let e = choose|e: int| i <= e <= run_end(s, i) && #[trigger] unit_match(us, s, i, e, true);
        lemma_unit_match_case_fold(us, s, i, e);
        assert(unit_match(us, s, i, e, false));
        assert(unit_run(us, s, i, false, false));
    }
}

/// A run that consumes the rest of the string also reaches a match when any
/// end is allowed.
pub proof fn law_full_run_implies_prefix_run(us: Seq<Unit>, s: Seq<u8>, start: int, cs: bool)
    requires
        unit_run(us, s, start, cs, true),
    ensures
        unit_run(us, s, start, cs, false),
{
    assert(unit_match(us, s, start, run_end(s, start), cs));
}

/// A class-only pattern never consults the window title.
pub proof fn law_single_pattern_ignores_title(
    p: String,
    app_class: Seq<char>,
    t1: Seq<char>,
    t2: Seq<char>,
    cs: bool,
)
    ensures
        spec_match_pattern(Pattern::Single(p), app_class, t1, cs) == spec_match_pattern(
            Pattern::Single(p),
            app_class,
            t2,
            cs,
        ),
{
}

/// The compiled NFA of any processed core reads back to the core's units.
pub proof fn law_compiled_nfa_decodes_to_units(core: Seq<u8>)
    requires
        core.len() * 2 + 2 <= usize::MAX,
    ensures
        is_canonical(canon_nfa(units(core))),
        decode_units(canon_nfa(units(core))) == units(core),
{
    lemma_units_size_bound(core, 0);
    lemma_canon_decode(units(core));
}

proof fn lemma_units_size_bound(p: Seq<u8>, i: int)
    requires
        0 <= i <= p.len(),
    ensures
        units_size(units_from(p, i)) <= 2 * (p.len() - i),
        units_size(units_from(p, i)) >= 0,
    decreases p.len() - i,
{
    lemma_units_size_nonneg(units_from(p, i));
    if i < p.len() {
        if p[i] == PLUS_QUANT && p[i] != GLOB_STAR && p[i] != ASSERT_BOUND && p[i]
            != ASSERT_NBOUND {
            lemma_units_size_bound(p, i + 1);
        } else {
            let rest_i = if p[i] != GLOB_STAR && p[i] != ASSERT_BOUND && p[i] != ASSERT_NBOUND
                && i + 1 < p.len() && p[i + 1] == PLUS_QUANT {
                i + 2
            } else {
                i + 1
            };
            lemma_units_size_bound(p, rest_i);
            lemma_units_size_prepend(units_from(p, i));
            assert(units_from(p, i).drop_first() =~= units_from(p, rest_i));
        }
    }
}

proof fn lemma_units_size_prepend(us: Seq<Unit>)
    requires
        us.len() > 0,
    ensures
        units_size(us) == unit_size(us[0]) + units_size(us.drop_first()),
    decreases us.len(),
{
    if us.len() > 1 {
        lemma_units_size_prepend(us.drop_last());
        assert(us.drop_last().drop_first() =~= us.drop_first().drop_last());
    } else {
        assert(us.drop_first() =~= Seq::<Unit>::empty());
        assert(us.drop_last() =~= Seq::<Unit>::empty());
    }
}

proof fn lemma_pe_out_len(b: Seq<u8>, i: int, end: int, lc: bool)
    requires
        0 <= i < end <= b.len(),
    ensures
        pe_out(b, i, end, lc).len() <= pe_adv(b, i, end),
        pe_adv(b, i, end) >= 1,
        i + pe_adv(b, i, end) <= end,
{
}

/// No step of escape processing emits a NUL byte.
proof fn lemma_pe_out_no_nul(b: Seq<u8>, i: int, end: int, lc: bool)
    requires
        0 <= i < end <= b.len(),
        b[i] != 0,
    ensures
        forall|j: int| 0 <= j < pe_out(b, i, end, lc).len() ==> pe_out(b, i, end, lc)[j] != 0,
{
}

proof fn lemma_pe_from_no_nul(b: Seq<u8>, i: int, end: int, lc: bool)
    ensures
        forall|j: int| 0 <= j < pe_from(b, i, end, lc).len() ==> pe_from(b, i, end, lc)[j] != 0,
    decreases end - i,
{
    if !(i >= end || i < 0 || end > b.len() || b[i] == 0) {
        lemma_pe_out_no_nul(b, i, end, lc);
        lemma_pe_from_no_nul(b, i + pe_adv(b, i, end), end, pe_next_lc(b, i, end, lc));
        let o = pe_out(b, i, end, lc);
        let rest = pe_from(b, i + pe_adv(b, i, end), end, pe_next_lc(b, i, end, lc));
        assert forall|j: int| 0 <= j < (o + rest).len() implies (o + rest)[j] != 0 by {
            if j >= o.len() {
                assert((o + rest)[j] == rest[j - o.len()]);
            }
        }
    }
}

/// The processed form never holds a NUL byte.
pub proof fn law_processed_has_no_nul(b: Seq<u8>)
    ensures
        forall|j: int| 0 <= j < spec_process_escapes(b).len() ==> spec_process_escapes(b)[j] != 0,
{
    lemma_pe_from_no_nul(b, 0, b.len() as int, false);
}

proof fn lemma_first_nul(b: Seq<u8>, i: int)
    requires
        0 <= i <= b.len(),
    ensures
        i <= first_nul(b, i) <= b.len(),
        forall|j: int| i <= j < first_nul(b, i) ==> b[j] != 0,
        first_nul(b, i) < b.len() ==> b[first_nul(b, i)] == 0,
    decreases b.len() - i,
{
    if i < b.len() && b[i] != 0 {
        lemma_first_nul(b, i + 1);
    }
}

proof fn lemma_pe_from_prefix(b: Seq<u8>, k: int, i: int, lc: bool)
    requires
        0 <= i <= k <= b.len(),
        forall|j: int| 0 <= j < k ==> b[j] != 0,
        k < b.len() ==> b[k] == 0,
    ensures
        pe_from(b, i, b.len() as int, lc) == pe_from(b.take(k), i, k, lc),
    decreases k - i,
{
    let t = b.take(k);
    if i < k {
        assert(t[i] == b[i]);
        if i + 1 < k {
            assert(t[i + 1] == b[i + 1]);
        }
        assert(pe_is_escape(b, i, b.len() as int) == pe_is_escape(t, i, k));
        assert(pe_out(b, i, b.len() as int, lc) == pe_out(t, i, k, lc));
        lemma_pe_from_prefix(b, k, i + pe_adv(b, i, b.len() as int), pe_next_lc(b, i, b.len() as int, lc));
    }
}

/// Escape processing stops at the first NUL byte: the result on the whole
/// text equals the result on the text up to that byte.
pub proof fn law_processing_stops_at_nul(b: Seq<u8>)
    ensures
        spec_process_escapes(b) == spec_process_escapes(b.take(first_nul(b, 0))),
{
    lemma_first_nul(b, 0);
    lemma_pe_from_prefix(b, first_nul(b, 0), 0, false);
}

/// Plain text: no NUL, backslash, `*`, `+` or `.` byte.
pub open spec fn is_plain_text(b: Seq<u8>) -> bool {
    forall|j: int|
        0 <= j < b.len() ==> b[j] != 0 && b[j] != 0x5C && b[j] != 0x2A && b[j] != 0x2B && b[j]
            != 0x2E
}

proof fn lemma_pe_from_plain(b: Seq<u8>, i: int, lc: bool)
    requires
        is_plain_text(b),
        0 <= i <= b.len(),
    ensures
        pe_from(b, i, b.len() as int, lc) == b.subrange(i, b.len() as int),
    decreases b.len() - i,
{
    if i < b.len() {
        lemma_pe_from_plain(b, i + 1, pe_next_lc(b, i, b.len() as int, lc));
        assert(seq![b[i]] + b.subrange(i + 1, b.len() as int) =~= b.subrange(i, b.len() as int));
    } else {
        assert(b.subrange(i, b.len() as int) =~= Seq::<u8>::empty());
    }
}

/// Escape processing leaves plain text unchanged.
pub proof fn law_plain_text_is_unchanged(b: Seq<u8>)
    requires
        is_plain_text(b),
    ensures
        spec_process_escapes(b) == b,
{
    lemma_pe_from_plain(b, 0, false);
    assert(b.subrange(0, b.len() as int) =~= b);
}

/// Whatever runs case-sensitively also runs case-insensitively.
pub proof fn law_case_sensitive_run_implies_insensitive(us: Seq<Unit>, s: Seq<u8>, start: int, full_match: bool)
    requires
        unit_run(us, s, start, true, full_match),
    ensures
        unit_run(us, s, start, false, full_match),
{
    if full_match {
        lemma_unit_match_case_fold(us, s, start, run_end(s, start));
    } else {
        let e = choose|e: int| start <= e <= run_end(s, start) && #[trigger] unit_match(us, s, start, e, true);
        lemma_unit_match_case_fold(us, s, start, e);
        assert(unit_match(us, s, start, e, false));
    }
}

/// On the automaton `nfa_compile` builds for any core, a full match is also
/// a match with any end, and a case-sensitive match is also a
/// case-insensitive one.
pub proof fn law_compiled_match_is_monotone(core: Seq<u8>, s: Seq<u8>, start: int, cs: bool, full_match: bool)
    requires
        core.len() * 2 + 2 <= usize::MAX,
    ensures
        ({
            let us = decode_units(canon_nfa(units(core)));
            &&& unit_run(us, s, start, cs, true) ==> unit_run(us, s, start, cs, false)
            &&& unit_run(us, s, start, true, full_match) ==> unit_run(us, s, start, false, full_match)
        }),
{
    let us = decode_units(canon_nfa(units(core)));
    if unit_run(us, s, start, cs, true) {
        law_full_run_implies_prefix_run(us, s, start, cs);
    }
    if unit_run(us, s, start, true, full_match) {
        law_case_sensitive_run_implies_insensitive(us, s, start, full_match);
    }
}

/// ASCII upper-casing: folds `a-z` only.
pub open spec fn ascii_upper(c: u8) -> u8 {
    if 0x61 <= c <= 0x7A {
        (c - 32) as u8
    } else {
        c
    }
}

/// ASCII case change of one byte: upper-casing when `up`, else lower-casing.
pub open spec fn ascii_fold(c: u8, up: bool) -> u8 {
    if up {
        ascii_upper(c)
    } else {
        ascii_lower(c)
    }
}

/// The bytes with their ASCII letters lower-cased (or upper-cased when
/// `up`), as `to_ascii_lowercase` / `to_ascii_uppercase` do.
pub open spec fn fold_bytes(s: Seq<u8>, up: bool) -> Seq<u8> {
    s.map_values(|c: u8| ascii_fold(c, up))
}

proof fn lemma_fold_byte(c: u8, up: bool)
    ensures
        ascii_lower(ascii_fold(c, up)) == ascii_lower(c),
        spec_is_digit_char(ascii_fold(c, up)) == spec_is_digit_char(c),
        spec_is_word_char(ascii_fold(c, up)) == spec_is_word_char(c),
        spec_is_whitespace_char(ascii_fold(c, up)) == spec_is_whitespace_char(c),
        (ascii_fold(c, up) == 0x0A) == (c == 0x0A),
        (ascii_fold(c, up) == 0x0D) == (c == 0x0D),
        c >= 0x80 ==> ascii_fold(c, up) == c,
        c < 0x80 ==> ascii_fold(c, up) < 0x80,
{
}

proof fn lemma_fold_char_matches(pc: u8, c: u8, up: bool)
    ensures
        spec_char_matches(pc, ascii_fold(c, up), false) == spec_char_matches(pc, c, false),
{
    lemma_fold_byte(c, up);
}

proof fn lemma_fold_boundary(s: Seq<u8>, pos: int, up: bool)
    ensures
        spec_is_word_boundary(fold_bytes(s, up), pos) == spec_is_word_boundary(s, pos),
{
    let t = fold_bytes(s, up);
    if s.len() > 0 {
        lemma_fold_byte(s[0], up);
        lemma_fold_byte(s[s.len() - 1], up);
    }
    if 0 < pos < s.len() {
        lemma_fold_byte(s[pos - 1], up);
        lemma_fold_byte(s[pos], up);
    }
}

proof fn lemma_fold_unit_match(us: Seq<Unit>, s: Seq<u8>, pos: int, end: int, up: bool)
    ensures
        unit_match(us, fold_bytes(s, up), pos, end, false) == unit_match(us, s, pos, end, false),
    decreases us.len(), end - pos,
{
    let t = fold_bytes(s, up);
    if us.len() > 0 {
        if 0 <= pos < s.len() {
            lemma_fold_byte(s[pos], up);
        }
        match us[0] {
            Unit::Lit(c) => {
                if 0 <= pos < s.len() {
                    lemma_fold_char_matches(c, s[pos], up);
                }
                lemma_fold_unit_match(us.drop_first(), s, pos + 1, end, up);
            },
            Unit::Plus(c) => {
                if pos < end {
                    if 0 <= pos < s.len() {
                        lemma_fold_char_matches(c, s[pos], up);
                    }
                    lemma_fold_unit_match(us.drop_first(), s, pos + 1, end, up);
                    lemma_fold_unit_match(us, s, pos + 1, end, up);
                }
            },
            Unit::Glob => {
                lemma_fold_unit_match(us.drop_first(), s, pos, end, up);
                if pos < end {
                    lemma_fold_unit_match(us, s, pos + 1, end, up);
                }
            },
            Unit::Assert(a) => {
                lemma_fold_boundary(s, pos, up);
                lemma_fold_unit_match(us.drop_first(), s, pos, end, up);
            },
        }
    }
}

proof fn lemma_fold_unit_run(us: Seq<Unit>, s: Seq<u8>, start: int, full_match: bool, up: bool)
    ensures
        unit_run(us, fold_bytes(s, up), start, false, full_match) == unit_run(us, s, start, false, full_match),
{
    let t = fold_bytes(s, up);
    assert(run_end(t, start) == run_end(s, start));
    if full_match {
        lemma_fold_unit_match(us, s, start, run_end(s, start), up);
    } else {
        assert forall|e: int| start <= e <= run_end(s, start) implies #[trigger] unit_match(us, t, start, e, false)
            == unit_match(us, s, start, e, false) by {
            lemma_fold_unit_match(us, s, start, e, up);
        }
        if unit_run(us, s, start, false, false) {
            let e = choose|e: int| start <= e <= run_end(s, start) && #[trigger] unit_match(us, s, start, e, false);
            assert(unit_match(us, t, start, e, false));
        }
        if unit_run(us, t, start, false, false) {
            let e = choose|e: int| start <= e <= run_end(t, start) && #[trigger] unit_match(us, t, start, e, false);
            assert(unit_match(us, s, start, e, false));
        }
    }
}

proof fn lemma_fold_first_scalar(b: Seq<u8>, up: bool)
    requires
        b.len() > 0,
    ensures
        valid_first_scalar(fold_bytes(b, up)) == valid_first_scalar(b),
        valid_first_scalar(b) ==> length_of_first_scalar(fold_bytes(b, up)) == length_of_first_scalar(b),
        valid_first_scalar(b) ==> pop_first_scalar(fold_bytes(b, up)) == fold_bytes(pop_first_scalar(b), up),
{
    let t = fold_bytes(b, up);
    lemma_fold_byte(b[0], up);
    if b.len() > 1 {
        lemma_fold_byte(b[1], up);
    }
    if b.len() > 2 {
        lemma_fold_byte(b[2], up);
    }
    if b.len() > 3 {
        lemma_fold_byte(b[3], up);
    }
    if b[0] < 0x80 {
        assert(decode_first_codepoint(t) == (t[0] & 0x7F) as u32);
        assert(decode_first_codepoint(b) == (b[0] & 0x7F) as u32);
        let x = t[0];
        let y = b[0];
        assert((x & 0x7F) as u32 == x as u32) by (bit_vector)
            requires
                x < 0x80u8,
        ;
        assert((y & 0x7F) as u32 == y as u32) by (bit_vector)
            requires
                y < 0x80u8,
        ;
    } else if valid_leading_and_continuation_bytes_first_codepoint(b) || valid_leading_and_continuation_bytes_first_codepoint(t) {
        assert(t[0] == b[0]);
        if is_leading_byte_width_2(b[0]) {
            assert(t[1] == b[1]);
        } else if is_leading_byte_width_3(b[0]) {
            assert(t[1] == b[1]);
            assert(t[2] == b[2]);
        } else if is_leading_byte_width_4(b[0]) {
            assert(t[1] == b[1]);
            assert(t[2] == b[2]);
            assert(t[3] == b[3]);
        }
    }
    if valid_first_scalar(b) {
        let n = length_of_first_scalar(b);
        assert(pop_first_scalar(t) =~= fold_bytes(pop_first_scalar(b), up));
    }
}

proof fn lemma_fold_char_boundary(b: Seq<u8>, i: int, up: bool)
    requires
        valid_utf8(b),
    ensures
        valid_utf8(fold_bytes(b, up)),
        is_char_boundary(fold_bytes(b, up), i) == is_char_boundary(b, i),
    decreases b.len(),
{
    let t = fold_bytes(b, up);
    if b.len() > 0 {
        lemma_fold_first_scalar(b, up);
        assert(valid_first_scalar(b));
        assert(1 <= length_of_first_scalar(b) <= b.len());
        assert(pop_first_scalar(b).len() < b.len());
        lemma_fold_char_boundary(pop_first_scalar(b), i - length_of_first_scalar(b), up);
    } else {
        assert(t.len() == 0);
    }
}

proof fn lemma_fold_boundary_run(us: Seq<Unit>, b: Seq<u8>, full_match: bool, up: bool)
    requires
        valid_utf8(b),
    ensures
        boundary_run(us, fold_bytes(b, up), false, full_match) == boundary_run(us, b, false, full_match),
{
    let t = fold_bytes(b, up);
    assert forall|i: int| 0 <= i <= b.len() implies (is_char_boundary(t, i) && #[trigger] unit_run(us, t, i, false, full_match))
        == (is_char_boundary(b, i) && unit_run(us, b, i, false, full_match)) by {
        lemma_fold_char_boundary(b, i, up);
        lemma_fold_unit_run(us, b, i, full_match, up);
    }
    if boundary_run(us, b, false, full_match) {
        let i = choose|i: int| 0 <= i <= b.len() && is_char_boundary(b, i) && #[trigger] unit_run(us, b, i, false, full_match);
        assert(unit_run(us, t, i, false, full_match));
    }
    if boundary_run(us, t, false, full_match) {
        let i = choose|i: int| 0 <= i <= t.len() && is_char_boundary(t, i) && #[trigger] unit_run(us, t, i, false, full_match);
        assert(unit_run(us, t, i, false, full_match));
    }
}

/// A case-insensitive match does not change when the string's ASCII letters
/// are lower-cased or upper-cased.
pub proof fn law_insensitive_match_ignores_ascii_case(pattern: Seq<u8>, s: Seq<u8>, up: bool)
    requires
        valid_utf8(s),
    ensures
        spec_pattern_match(pattern, fold_bytes(s, up), false) == spec_pattern_match(pattern, s, false),
{
    let us = units(spec_core(pattern));
    let t = fold_bytes(s, up);
    lemma_fold_unit_run(us, s, 0, true, up);
    lemma_fold_unit_run(us, s, 0, false, up);
    lemma_fold_boundary_run(us, s, true, up);
    lemma_fold_boundary_run(us, s, false, up);
}

/// A two-part rule pattern matches exactly when its class pattern matches
/// the class and its title pattern matches the title.
pub proof fn law_two_part_pattern_is_conjunction(c: String, t: String, app_class: Seq<char>, title: Seq<char>, cs: bool)
    ensures
        spec_match_pattern(Pattern::Parts(c, t), app_class, title, cs) == (spec_pattern_match(
            utf8(c@),
            utf8(app_class),
            cs,
        ) && spec_pattern_match(utf8(t@), utf8(title), cs)),
{
}

} // verus!
