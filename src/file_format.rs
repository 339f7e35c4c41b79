//! How a document is stored in a file: UTF-8 text, one line per `\n`.
use vstd::prelude::*;
use vstd::utf8::*;
use crate::cursor::fits_usize;
use crate::text::{all_valid_utf8, lemma_encode_concat, text_of};

verus! {

broadcast use encode_utf8_valid_utf8;

/// The bytes of a saved document: every line followed by a newline.
pub open spec fn file_image(lines: Seq<Seq<u8>>) -> Seq<u8>
    decreases lines.len(),
{
    if lines.len() == 0 {
        seq![]
    } else {
        file_image(lines.drop_last()) + lines.last() + seq![10u8]
    }
}

/// `line` without one carriage return at its end.
pub open spec fn strip_cr(line: Seq<u8>) -> Seq<u8> {
    if line.len() > 0 && line.last() == 13u8 {
        line.drop_last()
    } else {
        line
    }
}

/// The lines of `b` from a line that starts at `start`, whose bytes before `i`
/// hold no newline: each line ends at a newline, a carriage return just before
/// that newline is dropped, and the bytes after the last newline, if any, form a
/// last line.
pub open spec fn lines_scan(b: Seq<u8>, start: int, i: int) -> Seq<Seq<u8>>
    decreases b.len() - i,
{
    if i >= b.len() {
        if start < b.len() {
            seq![b.subrange(start, b.len() as int)]
        } else {
            seq![]
        }
    } else if b[i] == 10u8 {
        seq![strip_cr(b.subrange(start, i))] + lines_scan(b, i + 1, i + 1)
    } else {
        lines_scan(b, start, i + 1)
    }
}

/// The lines of a file's bytes; an empty file has none.
pub open spec fn lines_of(b: Seq<u8>) -> Seq<Seq<u8>> {
    lines_scan(b, 0, 0)
}

/// The lines of a document read from a file's bytes: those of the file, or a
/// single empty line for an empty file.
pub open spec fn document_lines(b: Seq<u8>) -> Seq<Seq<u8>> {
    if lines_of(b).len() == 0 {
        seq![Seq::<u8>::empty()]
    } else {
        lines_of(b)
    }
}

/// A line that a save and a read give back unchanged: it holds no newline and
/// does not end in a carriage return.
pub open spec fn is_plain_line(line: Seq<u8>) -> bool {
    &&& forall|k: int| 0 <= k < line.len() ==> line[k] != 10u8
    &&& !(line.len() > 0 && line.last() == 13u8)
}

/// The image of lines, taken from the front: the first line, its newline, then
/// the image of the others.
proof fn lemma_file_image_front(lines: Seq<Seq<u8>>)
    requires
        lines.len() > 0,
    ensures
        file_image(lines) == lines[0] + seq![10u8] + file_image(lines.drop_first()),
    decreases lines.len(),
{
    if lines.len() == 1 {
        assert(lines.drop_first() =~= Seq::<Seq<u8>>::empty());
        assert(lines.drop_last() =~= Seq::<Seq<u8>>::empty());
        assert(file_image(lines) =~= lines[0] + seq![10u8]);
        assert(lines[0] + seq![10u8] + Seq::<u8>::empty() =~= lines[0] + seq![10u8]);
    } else {
        let init = lines.drop_last();
        lemma_file_image_front(init);
        assert(init.drop_first() =~= lines.drop_first().drop_last());
        assert(lines.drop_first().last() == lines.last());
        assert(file_image(lines) =~= lines[0] + seq![10u8] + file_image(lines.drop_first()));
    }
}

/// The image of valid lines is valid UTF-8.
proof fn lemma_file_image_valid(lines: Seq<Seq<u8>>)
    requires
        all_valid_utf8(lines),
    ensures
        valid_utf8(file_image(lines)),
    decreases lines.len(),
{
    if lines.len() > 0 {
        let init = lines.drop_last();
        lemma_file_image_valid(init);
        reveal_with_fuel(valid_utf8, 2);
        assert(valid_utf8(seq![10u8]));
        valid_utf8_concat(file_image(init), lines.last());
        valid_utf8_concat(file_image(init) + lines.last(), seq![10u8]);
    }
}

/// Scanning over bytes that hold no newline only moves the scan position.
proof fn lemma_scan_plain(b: Seq<u8>, start: int, i: int, e: int)
    requires
        0 <= i <= e <= b.len(),
        forall|k: int| i <= k < e ==> b[k] != 10u8,
    ensures
        lines_scan(b, start, i) == lines_scan(b, start, e),
    decreases e - i,
{
    if i < e {
        lemma_scan_plain(b, start, i + 1, e);
    }
}

/// Where the bytes from `s` on are the image of plain lines, the scan from `s`
/// gives those lines.
proof fn lemma_scan_image(b: Seq<u8>, s: int, lines: Seq<Seq<u8>>)
    requires
        0 <= s <= b.len(),
        b.subrange(s, b.len() as int) == file_image(lines),
        forall|i: int| 0 <= i < lines.len() ==> is_plain_line(#[trigger] lines[i]),
    ensures
        lines_scan(b, s, s) == lines,
    decreases lines.len(),
{
    if lines.len() == 0 {
        assert(b.subrange(s, b.len() as int).len() == 0);
    } else {
        lemma_file_image_front(lines);
        let first = lines[0];
        let rest = lines.drop_first();
        let e = s + first.len();
        let tail = b.subrange(s, b.len() as int);
        assert(tail.subrange(0, first.len() as int) =~= first);
        assert(b.subrange(s, e) =~= first);
        assert(b[e] == tail[first.len() as int]);
        assert(b[e] == 10u8);
        assert forall|k: int| s <= k < e implies b[k] != 10u8 by {
            assert(b[k] == first[k - s]);
        }
        lemma_scan_plain(b, s, s, e);
        let img = file_image(rest);
        assert(tail == first + seq![10u8] + img);
        assert(tail.subrange((first.len() + 1) as int, tail.len() as int) =~= img);
        assert(b.subrange(e + 1, b.len() as int) =~= tail.subrange(
            (first.len() + 1) as int,
            tail.len() as int,
        ));
        assert forall|i: int| 0 <= i < rest.len() implies is_plain_line(#[trigger] rest[i]) by {
            assert(rest[i] == lines[i + 1]);
        }
        lemma_scan_image(b, e + 1, rest);
        assert(is_plain_line(lines[0]));
        assert(strip_cr(first) == first);
        assert(lines =~= seq![first] + rest);
    }
}

/// Saving a document and reading the file back gives the same lines, as long as
/// no line holds a newline or ends in a carriage return; the saved bytes are
/// valid UTF-8, so the read succeeds.
pub proof fn lemma_save_then_open(lines: Seq<Seq<u8>>)
    requires
        lines.len() >= 1,
        all_valid_utf8(lines),
        forall|i: int| 0 <= i < lines.len() ==> is_plain_line(#[trigger] lines[i]),
    ensures
        valid_utf8(file_image(lines)),
        document_lines(file_image(lines)) == lines,
{
    let b = file_image(lines);
    lemma_file_image_valid(lines);
    assert(b.subrange(0, b.len() as int) =~= b);
    lemma_scan_image(b, 0, lines);
}

/// A newline is encoded as the single byte 10.
proof fn lemma_newline_bytes()
    ensures
        encode_utf8(seq!['\n']) == seq![10u8],
{
    let s = seq!['\n'];
    assert(s.drop_first() =~= Seq::<char>::empty());
    assert(encode_utf8(s.drop_first()) =~= Seq::<u8>::empty());
    assert(s[0] as u32 == 10u32);
    assert((10u32 & 0x7Fu32) == 10u32) by (bit_vector);
    assert(leading_byte_width_1(10u32) == 10u8);
    assert(encode_scalar(10u32) =~= seq![10u8]);
    assert(encode_utf8(s) =~= encode_scalar(10u32) + Seq::<u8>::empty());
}

/// The text of `lines`, each followed by a newline: what a save writes.
pub fn join_lines(lines: &[String]) -> (r: String)
    ensures
        encode_utf8(r@) == file_image(text_of(lines@)),
{
    let mut r = String::new();
    let mut i: usize = 0;
    let n = lines.len();
    proof {
        assert(text_of(lines@).take(0) =~= Seq::<Seq<u8>>::empty());
    }
    while i < n
        invariant
            n == lines@.len(),
            i <= n,
            encode_utf8(r@) == file_image(text_of(lines@).take(i as int)),
        decreases n - i,
    {
        let ghost before = r@;
        r.append(lines[i].as_str());
        r.append("\n");
        proof {
            reveal_strlit("\n");
            lemma_newline_bytes();
            lemma_encode_concat(before, lines@[i as int]@);
            lemma_encode_concat(before + lines@[i as int]@, seq!['\n']);
            let t = text_of(lines@);
            assert("\n"@ =~= seq!['\n']);
            assert(t.take(i + 1).drop_last() =~= t.take(i as int));
            assert(t.take(i + 1).last() == encode_utf8(lines@[i as int]@));
            assert(r@ =~= before + lines@[i as int]@ + seq!['\n']);
            assert(file_image(t.take(i + 1)) == file_image(t.take(i as int)) + encode_utf8(
                lines@[i as int]@,
            ) + seq![10u8]);
        }
        i += 1;
    }
    proof {
        assert(text_of(lines@).take(n as int) =~= text_of(lines@));
    }
    r
}

/// The lines of `text`: each ends at a `\n`, with a `\r` just before that
/// `\n` dropped; what follows the last `\n`, if anything, is a last line.
pub fn split_lines(text: &str) -> (r: Vec<String>)
    ensures
        text_of(r@) == lines_of(encode_utf8(text@)),
        fits_usize(text_of(r@)),
{
    let ghost b = encode_utf8(text@);
    let total = text.as_bytes().len();
    let mut result: Vec<String> = Vec::new();
    let mut rest: &str = text;
    let mut j: usize = 0;
    let ghost mut start: int = 0;
    proof {
        assert(b.skip(0) =~= b);
        assert(text_of(result@) + lines_of(b) =~= lines_of(b));
    }
    loop
        invariant
            total == b.len(),
            0 <= start <= b.len(),
            encode_utf8(rest@) == b.skip(start),
            j <= b.len() - start,
            text_of(result@) + lines_scan(b, start, start + j) == lines_of(b),
            forall|k: int| 0 <= k < result@.len() ==> #[trigger] text_of(result@)[k].len() <= b.len(),
        ensures
            start + j == b.len(),
            encode_utf8(rest@) == b.skip(start),
            text_of(result@) + lines_scan(b, start, start + j) == lines_of(b),
            forall|k: int| 0 <= k < result@.len() ==> #[trigger] text_of(result@)[k].len() <= b.len(),
        decreases b.len() - start - j,
    {
        let bytes = rest.as_bytes();
        if j == bytes.len() {
            break;
        }
        let ghost rb = encode_utf8(rest@);
        if bytes[j] == 10u8 {
            proof {
                is_char_boundary_iff_is_leading_byte(rb, j as int);
            }
            let (piece, after) = rest.split_at(j);
            let ghost ab = encode_utf8(after@);
            proof {
                assert(ab =~= rb.subrange(j as int, rb.len() as int));
                reveal_with_fuel(is_char_boundary, 2);
                assert(length_of_first_scalar(ab) == 1);
                assert(is_char_boundary(ab, 1));
            }
            let (_, tail) = after.split_at(1);
            let ghost pb = encode_utf8(piece@);
            let line = if j > 0 && bytes[j - 1] == 13u8 {
                proof {
                    is_char_boundary_iff_is_leading_byte(pb, j - 1);
                }
                piece.split_at(j - 1).0
            } else {
                piece
            };
            let ghost old_result = result@;
            result.push(line.to_owned());
            proof {
                let piece_bytes = b.subrange(start, start + j);
                assert(pb =~= piece_bytes);
                assert(encode_utf8(line@) =~= strip_cr(piece_bytes));
                assert(encode_utf8(tail@) =~= b.skip(start + j + 1));
                assert(b[start + j] == 10u8);
                assert(lines_scan(b, start, start + j) == seq![strip_cr(piece_bytes)] + lines_scan(
                    b,
                    start + j + 1,
                    start + j + 1,
                ));
                assert(text_of(result@) =~= text_of(old_result).push(strip_cr(piece_bytes)));
                assert(text_of(result@) + lines_scan(b, start + j + 1, start + j + 1)
                    =~= text_of(old_result) + lines_scan(b, start, start + j));
                start = start + j + 1;
            }
            rest = tail;
            j = 0;
        } else {
            proof {
                assert(b[start + j] == rb[j as int]);
            }
            j += 1;
        }
    }
    let ghost old_result = result@;
    if rest.as_bytes().len() > 0 {
        result.push(rest.to_owned());
        proof {
            assert(lines_scan(b, start, start + j) == seq![b.subrange(start, b.len() as int)]);
            assert(text_of(result@) =~= text_of(old_result) + seq![
                b.subrange(start, b.len() as int),
            ]);
        }
    } else {
        proof {
            assert(lines_scan(b, start, start + j) =~= Seq::<Seq<u8>>::empty());
            assert(text_of(old_result) + Seq::<Seq<u8>>::empty() =~= text_of(old_result));
        }
    }
    proof {
        assert(result.len() == result@.len());
        assert forall|k: int| 0 <= k < text_of(result@).len() implies #[trigger] text_of(
            result@,
        )[k].len() <= usize::MAX by {
            if k < old_result.len() {
                assert(text_of(result@)[k] == text_of(old_result)[k]);
            }
        }
    }
    result
}

} // verus!
