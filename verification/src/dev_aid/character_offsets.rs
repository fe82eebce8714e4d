use crate::tokenizer::Token;
use std::ops::Range;
use vstd::prelude::*;
use vstd::string::StringSliceAdditionalSpecFns;
use vstd::utf8::{
    decode_utf8, encode_utf8_decode_utf8, is_char_boundary, is_continuation_byte,
    length_of_first_scalar, pop_first_scalar, valid_utf8, valid_utf8_split,
};

verus! {

/// The number of bytes of `bytes` that start a character, that is, that are
/// not UTF-8 continuation bytes.
pub open spec fn count_char_starts(bytes: Seq<u8>) -> nat
    decreases bytes.len(),
{
    if bytes.len() == 0 {
        0
    } else {
        count_char_starts(bytes.drop_last()) + if is_continuation_byte(bytes.last()) {
            0nat
        } else {
            1nat
        }
    }
}

/// The number of characters of `text` before its byte `b`.
pub open spec fn chars_before(text: &str, b: int) -> int {
    decode_utf8(text.spec_bytes().subrange(0, b)).len() as int
}

proof fn lemma_count_char_starts_concat(a: Seq<u8>, b: Seq<u8>)
    ensures
        count_char_starts(a + b) == count_char_starts(a) + count_char_starts(b),
    decreases b.len(),
{
    if b.len() == 0 {
        assert(a + b == a);
    } else {
        lemma_count_char_starts_concat(a, b.drop_last());
        assert((a + b).drop_last() == a + b.drop_last());
        assert((a + b).last() == b.last());
    }
}

/// In valid UTF-8, the characters are exactly the bytes that start one.
proof fn lemma_decode_len_counts_char_starts(bytes: Seq<u8>)
    requires
        valid_utf8(bytes),
    ensures
        decode_utf8(bytes).len() == count_char_starts(bytes),
    decreases bytes.len(),
{
    if bytes.len() > 0 {
        let n = length_of_first_scalar(bytes);
        let first = bytes.subrange(0, n);
        let rest = pop_first_scalar(bytes);
        assert(bytes == first + rest);
        lemma_count_char_starts_concat(first, rest);
        reveal_with_fuel(count_char_starts, 5);
        assert(first.drop_last().drop_last().drop_last().len() == 0 ==> first.len() <= 3);
        if n == 1 {
            assert(first.drop_last().len() == 0);
        } else if n == 2 {
            assert(first.drop_last().drop_last().len() == 0);
            assert(first.drop_last().last() == bytes[0]);
        } else if n == 3 {
            assert(first.drop_last().drop_last().drop_last().len() == 0);
            assert(first.drop_last().drop_last().last() == bytes[0]);
            assert(first.drop_last().last() == bytes[1]);
        } else {
            assert(first.drop_last().drop_last().drop_last().drop_last().len() == 0);
            assert(first.drop_last().drop_last().drop_last().last() == bytes[0]);
            assert(first.drop_last().drop_last().last() == bytes[1]);
            assert(first.drop_last().last() == bytes[2]);
        }
        assert(count_char_starts(first) == 1);
        lemma_decode_len_counts_char_starts(rest);
    }
}

/// The characters of `text` before a character boundary `b` are the bytes
/// before it that start one.
proof fn lemma_chars_before(text: &str, b: int)
    requires
        0 <= b <= text.spec_bytes().len(),
        char_boundary(text, b),
    ensures
        chars_before(text, b) == count_char_starts(text.spec_bytes().subrange(0, b)),
{
    reveal(char_boundary);
    vstd::utf8::encode_utf8_valid_utf8(text@);
    valid_utf8_split(text.spec_bytes(), b);
    lemma_decode_len_counts_char_starts(text.spec_bytes().subrange(0, b));
}

proof fn lemma_count_char_starts_bound(bytes: Seq<u8>)
    ensures
        count_char_starts(bytes) <= bytes.len(),
    decreases bytes.len(),
{
    if bytes.len() > 0 {
        lemma_count_char_starts_bound(bytes.drop_last());
    }
}

/// Between two character boundaries `a <= b` of `text` lie at least none and
/// at most `b - a` characters.
proof fn lemma_chars_before_monotone(text: &str, a: int, b: int)
    requires
        0 <= a <= b <= text.spec_bytes().len(),
        char_boundary(text, a),
        char_boundary(text, b),
    ensures
        0 <= chars_before(text, a) <= chars_before(text, b) <= b,
{
    let bytes = text.spec_bytes();
    lemma_chars_before(text, a);
    lemma_chars_before(text, b);
    assert(bytes.subrange(0, b) == bytes.subrange(0, a) + bytes.subrange(a, b));
    lemma_count_char_starts_concat(bytes.subrange(0, a), bytes.subrange(a, b));
    lemma_count_char_starts_bound(bytes.subrange(0, b));
}

/// The end of the text, in bytes and in characters.
proof fn lemma_chars_before_end(text: &str)
    ensures
        chars_before(text, text.spec_bytes().len() as int) == text@.len(),
        char_boundary(text, text.spec_bytes().len() as int),
        char_boundary(text, 0),
{
    reveal(char_boundary);
    let bytes = text.spec_bytes();
    vstd::utf8::encode_utf8_valid_utf8(text@);
    vstd::utf8::is_char_boundary_start_end_of_seq(bytes);
    assert(bytes.subrange(0, bytes.len() as int) == bytes);
    encode_utf8_decode_utf8(text@);
}

proof fn lemma_offset_ordered(text: &str, tokens: Seq<Token>, i: int)
    requires
        tokens_in_order(text, tokens),
        text.spec_bytes().len() <= usize::MAX,
        0 <= i <= tokens.len(),
    ensures
        spec_character_offsets(text, tokens)[i].start <= spec_character_offsets(text, tokens)[i].end,
        0 < i ==> spec_character_offsets(text, tokens)[i - 1].end
            <= spec_character_offsets(text, tokens)[i].start,
{
    let offsets = spec_character_offsets(text, tokens);
    let len = text.spec_bytes().len() as int;
    lemma_chars_before_end(text);
    if i < tokens.len() {
        let t = tokens[i];
        lemma_chars_before_monotone(text, t.range.start as int, t.range.end as int);
        assert(offsets[i] == char_range(text, t.range));
        if 0 < i {
            let prev = tokens[i - 1].range.end as int;
            lemma_chars_before_monotone(text, prev, t.range.start as int);
            lemma_chars_before_monotone(text, tokens[i - 1].range.start as int, prev);
            assert(offsets[i - 1] == char_range(text, tokens[i - 1].range));
        }
    } else {
        let last_end: int = if tokens.len() == 0 {
            0
        } else {
            tokens.last().range.end as int
        };
        lemma_chars_before_monotone(text, last_end, len);
        if 0 < i {
            let prev = tokens[i - 1];
            lemma_chars_before_monotone(text, prev.range.start as int, prev.range.end as int);
            assert(offsets[i - 1] == char_range(text, prev.range));
        }
    }
}

/// The character ranges come out in the order of the tokens: each range
/// starts no later than it ends, and no earlier than the previous one ends.
pub proof fn lemma_character_offsets_in_order(text: &str, tokens: Seq<Token>)
    requires
        tokens_in_order(text, tokens),
        text.spec_bytes().len() <= usize::MAX,
    ensures
        forall|i: int|
            0 <= i < spec_character_offsets(text, tokens).len() ==> (
            #[trigger] spec_character_offsets(text, tokens)[i]).start
                <= spec_character_offsets(text, tokens)[i].end,
        forall|i: int|
            0 < i < spec_character_offsets(text, tokens).len() ==> spec_character_offsets(
                text,
                tokens,
            )[i - 1].end <= (#[trigger] spec_character_offsets(text, tokens)[i]).start,
{
    assert forall|i: int| 0 <= i < spec_character_offsets(text, tokens).len() implies (
    #[trigger] spec_character_offsets(text, tokens)[i]).start <= spec_character_offsets(
        text,
        tokens,
    )[i].end by {
        lemma_offset_ordered(text, tokens, i);
    }
    assert forall|i: int| 0 < i < spec_character_offsets(text, tokens).len() implies spec_character_offsets(
        text,
        tokens,
    )[i - 1].end <= (#[trigger] spec_character_offsets(text, tokens)[i]).start by {
        lemma_offset_ordered(text, tokens, i);
    }
}

/// Counts the character starts of `bytes` from `from` up to `to`, on top of
/// `count`, the number of those before `from`.
fn count_char_starts_until(bytes: &[u8], from: usize, to: usize, count: usize) -> (n: usize)
    requires
        from <= to <= bytes@.len(),
        count == count_char_starts(bytes@.subrange(0, from as int)),
        count <= from,
    ensures
        n == count_char_starts(bytes@.subrange(0, to as int)),
        n <= to,
{
    let mut pos = from;
    let mut n = count;
    while pos < to
        invariant
            from <= pos <= to <= bytes@.len(),
            n == count_char_starts(bytes@.subrange(0, pos as int)),
            n <= pos,
        decreases to - pos,
    {
        assert(bytes@.subrange(0, pos + 1).drop_last() == bytes@.subrange(0, pos as int));
        let b = bytes[pos];
        if !(0x80 <= b && b <= 0xbf) {
            n = n + 1;
        }
        pos = pos + 1;
    }
    n
}

/// Whether byte `b` of `text` starts a character, or is its end.
#[verifier::opaque]
pub open spec fn char_boundary(text: &str, b: int) -> bool {
    is_char_boundary(text.spec_bytes(), b)
}

/// The tokens lie in order in `text`, each beginning and ending on a
/// character boundary, none before the end of the previous one.
pub open spec fn tokens_in_order(text: &str, tokens: Seq<Token>) -> bool {
    &&& forall|i: int|
        0 <= i < tokens.len() ==> {
            &&& (#[trigger] tokens[i]).range.start <= tokens[i].range.end
            &&& tokens[i].range.end <= text.spec_bytes().len()
            &&& char_boundary(text, tokens[i].range.start as int)
            &&& char_boundary(text, tokens[i].range.end as int)
        }
    &&& forall|i: int, j: int|
        0 <= i < j < tokens.len() ==> (#[trigger] tokens[i]).range.end <= (
        #[trigger] tokens[j]).range.start
}

/// The characters of `text` that a byte range of it covers.
pub open spec fn char_range(text: &str, bytes: Range<usize>) -> Range<usize> {
    Range {
        start: chars_before(text, bytes.start as int) as usize,
        end: chars_before(text, bytes.end as int) as usize,
    }
}

/// The character offsets of the tokens: for each token, the characters it
/// covers, then, for the end of file, the characters from the end of the
/// last token to the end of the text.
pub open spec fn spec_character_offsets(text: &str, tokens: Seq<Token>) -> Seq<Range<usize>> {
    let last_end: int = if tokens.len() == 0 {
        0
    } else {
        tokens.last().range.end as int
    };
    Seq::new(tokens.len(), |i: int| char_range(text, tokens[i].range)).push(
        Range { start: chars_before(text, last_end) as usize, end: text@.len() as usize },
    )
}

fn on_char_boundary(text: &str, b: usize) -> (r: bool)
    ensures
        r == char_boundary(text, b as int),
{
    proof {
        reveal(char_boundary);
    }
    text.is_char_boundary(b)
}

/// Whether the tokens lie in order in `text` on character boundaries, as
/// [`generate_character_offsets`] requires.
pub fn tokens_are_in_order(text: &str, tokens: &[Token]) -> (b: bool)
    ensures
        b == tokens_in_order(text, tokens@),
{
    let len = text.as_bytes().len();
    let mut i: usize = 0;
    while i < tokens.len()
        invariant
            len == text.spec_bytes().len(),
            i <= tokens@.len(),
            forall|j: int|
                0 <= j < i ==> {
                    &&& (#[trigger] tokens@[j]).range.start <= tokens@[j].range.end
                    &&& tokens@[j].range.end <= text.spec_bytes().len()
                    &&& char_boundary(text, tokens@[j].range.start as int)
                    &&& char_boundary(text, tokens@[j].range.end as int)
                },
            forall|a: int, b: int|
                0 <= a < b < i ==> (#[trigger] tokens@[a]).range.end <= (
                #[trigger] tokens@[b]).range.start,
        decreases tokens@.len() - i,
    {
        let start = tokens[i].range.start;
        let end = tokens[i].range.end;
        if start > end || end > len {
            return false;
        }
        let start_ok = on_char_boundary(text, start);
        let end_ok = on_char_boundary(text, end);
        if !start_ok || !end_ok {
            return false;
        }
        if i > 0 && tokens[i - 1].range.end > start {
            return false;
        }
        assert forall|a: int| 0 <= a < i implies (#[trigger] tokens@[a]).range.end <= start by {
            if a < i - 1 {
                assert(tokens@[a].range.end <= tokens@[i - 1].range.start);
            }
        }
        i = i + 1;
    }
    true
}

/// Converts the byte ranges of the tokens into character ranges, with one
/// more range at the end for the end of file.
pub fn generate_character_offsets(file_text: &str, tokens: &[Token]) -> (character_offsets: Vec<
    Range<usize>,
>)
    requires
        tokens_in_order(file_text, tokens@),
    ensures
        character_offsets@.len() == tokens@.len() + 1,
        character_offsets@ == spec_character_offsets(file_text, tokens@),
{
    let bytes = file_text.as_bytes();
    let ghost spec_bytes = file_text.spec_bytes();
    proof {
        lemma_chars_before_end(file_text);
    }
    let mut character_offsets: Vec<Range<usize>> = Vec::new();
    character_offsets.reserve(tokens.len());
    let mut cur_char: usize = 0;
    let mut whitespace_start: usize = 0;
    assert(bytes@.subrange(0, 0).len() == 0);
    let mut i: usize = 0;
    while i < tokens.len()
        invariant
            bytes@ == spec_bytes,
            spec_bytes == file_text.spec_bytes(),
            tokens_in_order(file_text, tokens@),
            i <= tokens@.len(),
            whitespace_start <= bytes@.len(),
            i == 0 ==> whitespace_start == 0,
            i > 0 ==> whitespace_start == tokens@[i - 1].range.end,
            char_boundary(file_text, whitespace_start as int),
            cur_char == count_char_starts(bytes@.subrange(0, whitespace_start as int)),
            cur_char <= whitespace_start,
            character_offsets@.len() == i,
            forall|j: int|
                0 <= j < i ==> character_offsets@[j] == char_range(
                    file_text,
                    #[trigger] tokens@[j].range,
                ),
        decreases tokens@.len() - i,
    {
        let tok_range = tokens[i].get_range();
        assert(tokens@[i as int].range == tok_range);
        assert(i > 0 ==> tokens@[i - 1].range.end <= tokens@[i as int].range.start);
        // whitespace
        cur_char = count_char_starts_until(bytes, whitespace_start, tok_range.start, cur_char);
        let token_start_char = cur_char;
        // actual text
        cur_char = count_char_starts_until(bytes, tok_range.start, tok_range.end, cur_char);
        proof {
            lemma_chars_before(file_text, tok_range.start as int);
            lemma_chars_before(file_text, tok_range.end as int);
        }
        character_offsets.push(token_start_char..cur_char);
        whitespace_start = tok_range.end;
        i = i + 1;
    }
    // Final char offset for EOF
    let num_chars_in_file = count_char_starts_until(bytes, whitespace_start, bytes.len(), cur_char);
    proof {
        lemma_chars_before(file_text, whitespace_start as int);
        lemma_chars_before(file_text, spec_bytes.len() as int);
        assert(spec_bytes.subrange(0, spec_bytes.len() as int) == spec_bytes);
        encode_utf8_decode_utf8(file_text@);
    }
    character_offsets.push(cur_char..num_chars_in_file);
    assert(character_offsets@ == spec_character_offsets(file_text, tokens@));
    character_offsets
}

proof fn lemma_count_no_continuation(bytes: Seq<u8>)
    requires
        forall|i: int| 0 <= i < bytes.len() ==> #[trigger] bytes[i] < 0x80,
    ensures
        count_char_starts(bytes) == bytes.len(),
    decreases bytes.len(),
{
    if bytes.len() > 0 {
        let init = bytes.drop_last();
        assert forall|i: int| 0 <= i < init.len() implies #[trigger] init[i] < 0x80 by {
            assert(init[i] == bytes[i]);
        }
        lemma_count_no_continuation(init);
        assert(bytes[bytes.len() - 1] < 0x80);
    }
}

/// In an ASCII text every byte is a character, so the character range of
/// each token is its byte range, and the end of file range runs from the end
/// of the last token to the length of the text.
pub proof fn lemma_ascii_offsets_are_byte_offsets(text: &str, tokens: Seq<Token>)
    requires
        tokens_in_order(text, tokens),
        vstd::string::is_ascii(text),
        text.spec_bytes().len() <= usize::MAX,
    ensures
        forall|i: int|
            0 <= i < tokens.len() ==> #[trigger] spec_character_offsets(text, tokens)[i]
                == tokens[i].range,
        spec_character_offsets(text, tokens)[tokens.len() as int].end == text.spec_bytes().len(),
        spec_character_offsets(text, tokens)[tokens.len() as int].start == (if tokens.len() == 0 {
            0
        } else {
            tokens.last().range.end as int
        }),
{
    let bytes = text.spec_bytes();
    vstd::utf8::is_ascii_chars_encode_utf8(text@);
    vstd::utf8::is_ascii_chars_nat_bound(text@);
    assert forall|i: int| 0 <= i < bytes.len() implies #[trigger] bytes[i] < 0x80 by {
        assert(text@[i] as u8 == bytes[i]);
        assert((text@[i] as nat) < 128);
    }
    assert forall|b: int| 0 <= b <= bytes.len() && char_boundary(text, b) implies chars_before(
        text,
        b,
    ) == b by {
        lemma_chars_before(text, b);
        let pre = bytes.subrange(0, b);
        assert forall|i: int| 0 <= i < pre.len() implies #[trigger] pre[i] < 0x80 by {
            assert(pre[i] == bytes[i]);
        }
        lemma_count_no_continuation(pre);
    }
    lemma_chars_before_end(text);
    let offsets = spec_character_offsets(text, tokens);
    assert forall|i: int| 0 <= i < tokens.len() implies #[trigger] offsets[i] == tokens[i].range by {
        assert(offsets[i] == char_range(text, tokens[i].range));
    }
}

} // verus!
