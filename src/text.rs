//! Lines of text as UTF-8 bytes, and the few `String` operations that edit them.
use vstd::prelude::*;
use vstd::utf8::*;

verus! {

/// The text of a sequence of lines: each line as the UTF-8 encoding of its characters.
pub open spec fn text_of(lines: Seq<String>) -> Seq<Seq<u8>> {
    lines.map_values(|s: String| encode_utf8(s@))
}

/// `line` with the encoding of `ch` inserted at byte offset `col`.
pub open spec fn with_char_inserted(line: Seq<u8>, col: int, ch: char) -> Seq<u8> {
    line.take(col) + encode_utf8(seq![ch]) + line.skip(col)
}

/// `line` without the character whose encoding starts at byte offset `col`.
pub open spec fn with_char_removed(line: Seq<u8>, col: int) -> Seq<u8> {
    line.take(col) + line.skip(col + length_of_first_scalar(line.skip(col)))
}

/// Encoding distributes over concatenation.
pub proof fn lemma_encode_concat(a: Seq<char>, b: Seq<char>)
    ensures
        encode_utf8(a + b) == encode_utf8(a) + encode_utf8(b),
    decreases a.len(),
{
    if a.len() == 0 {
        assert(a + b =~= b);
        assert(encode_utf8(a) + encode_utf8(b) =~= encode_utf8(b));
    } else {
        assert((a + b).drop_first() =~= a.drop_first() + b);
        lemma_encode_concat(a.drop_first(), b);
        assert(encode_utf8(a + b) =~= encode_scalar(a[0] as u32) + (encode_utf8(a.drop_first())
            + encode_utf8(b)));
    }
}

/// Every line of `text` is valid UTF-8.
pub open spec fn all_valid_utf8(text: Seq<Seq<u8>>) -> bool {
    forall|i: int| 0 <= i < text.len() ==> valid_utf8(#[trigger] text[i])
}

/// Lines that are encodings of strings are valid UTF-8.
pub proof fn lemma_text_valid(lines: Seq<String>)
    ensures
        all_valid_utf8(text_of(lines)),
{
    assert forall|i: int| 0 <= i < text_of(lines).len() implies valid_utf8(
        #[trigger] text_of(lines)[i],
    ) by {
        encode_utf8_valid_utf8(lines[i]@);
    }
}

/// The encoding of a single character is one to four bytes long, valid, and
/// starts with the leading byte of exactly that many bytes.
proof fn lemma_encode_one(ch: char)
    ensures
        encode_utf8(seq![ch]) == encode_scalar(ch as u32),
        1 <= encode_utf8(seq![ch]).len() <= 4,
        valid_utf8(encode_utf8(seq![ch])),
        length_of_first_scalar(encode_utf8(seq![ch])) == encode_utf8(seq![ch]).len(),
{
    let one = seq![ch];
    encode_utf8_first_scalar(one);
    encode_utf8_valid_utf8(one);
    assert(one.drop_first() =~= Seq::<char>::empty());
    assert(encode_utf8(one.drop_first()) =~= Seq::<u8>::empty());
    assert(encode_utf8(one) =~= encode_scalar(ch as u32));
}

/// Two valid encodings, one after the other, are valid, and a character
/// boundary separates them.
pub proof fn lemma_boundary_at_join(p: Seq<u8>, q: Seq<u8>)
    requires
        valid_utf8(p),
        valid_utf8(q),
    ensures
        valid_utf8(p + q),
        is_char_boundary(p + q, p.len() as int),
    decreases p.len(),
{
    valid_utf8_concat(p, q);
    if p.len() == 0 {
        assert(p + q =~= q);
    } else {
        let rest = pop_first_scalar(p);
        assert(pop_first_scalar(p + q) =~= rest + q);
        lemma_boundary_at_join(rest, q);
    }
}

/// The character that starts at a boundary before the end fits in what is left.
pub proof fn lemma_removal_fits(line: Seq<u8>, col: int)
    requires
        valid_utf8(line),
        is_char_boundary(line, col),
        col < line.len(),
    ensures
        1 <= length_of_first_scalar(line.skip(col)) <= line.len() - col,
        with_char_removed(line, col).len() == line.len() - length_of_first_scalar(line.skip(col)),
{
    valid_utf8_split(line, col);
    assert(line.skip(col) =~= line.subrange(col, line.len() as int));
}

/// Taking out a character just inserted gives the line back.
pub proof fn lemma_remove_inserted(line: Seq<u8>, col: int, ch: char)
    requires
        valid_utf8(line),
        is_char_boundary(line, col),
    ensures
        is_char_boundary(with_char_inserted(line, col, ch), col),
        col < with_char_inserted(line, col, ch).len(),
        with_char_inserted(line, col, ch).len() == line.len() + encode_utf8(seq![ch]).len(),
        with_char_removed(with_char_inserted(line, col, ch), col) == line,
{
    let e = encode_utf8(seq![ch]);
    lemma_encode_one(ch);
    valid_utf8_split(line, col);
    let p = line.take(col);
    let s = line.skip(col);
    assert(p =~= line.subrange(0, col));
    assert(s =~= line.subrange(col, line.len() as int));
    valid_utf8_concat(e, s);
    lemma_boundary_at_join(p, e + s);
    let ins = with_char_inserted(line, col, ch);
    assert(ins =~= p + (e + s));
    assert(ins.skip(col) =~= e + s);
    assert((e + s)[0] == e[0]);
    assert(length_of_first_scalar(e + s) == e.len());
    assert(with_char_removed(ins, col) =~= p + s);
    assert(p + s =~= line);
}

/// The number of bytes in the encoding of `s`.
pub fn byte_len(s: &String) -> (n: usize)
    ensures
        n == encode_utf8(s@).len(),
{
    s.as_str().as_bytes().len()
}

/// Relies on `String::insert`: puts the encoding of `ch` at byte offset `idx`;
/// it panics unless `idx` is a character boundary.
#[verifier::external_body]
pub(crate) fn insert_char_into(s: &mut String, idx: usize, ch: char)
    requires
        is_char_boundary(encode_utf8(old(s)@), idx as int),
    ensures
        encode_utf8(final(s)@) == with_char_inserted(encode_utf8(old(s)@), idx as int, ch),
{
    s.insert(idx, ch)
}

/// Relies on `String::remove`: takes out the character whose encoding starts at
/// byte offset `idx`; it panics unless `idx` is a character boundary before the end.
#[verifier::external_body]
pub(crate) fn remove_char_from(s: &mut String, idx: usize)
    requires
        idx < encode_utf8(old(s)@).len(),
        is_char_boundary(encode_utf8(old(s)@), idx as int),
    ensures
        encode_utf8(final(s)@) == with_char_removed(encode_utf8(old(s)@), idx as int),
{
    s.remove(idx);
}

/// Relies on `String::from_utf8`: succeeds exactly on valid UTF-8, and then
/// holds the characters those bytes encode.
#[verifier::external_body]
pub(crate) fn string_from_utf8(bytes: Vec<u8>) -> (r: Option<String>)
    ensures
        r is Some <==> valid_utf8(bytes@),
        r matches Some(s) ==> encode_utf8(s@) == bytes@,
{
    String::from_utf8(bytes).ok()
}

} // verus!
