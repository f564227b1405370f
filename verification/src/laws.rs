//! Properties of the library as a whole, proved over the model.
use vstd::prelude::*;

use vstd::utf8::{decode_utf8, encode_utf8, valid_utf8};

use crate::event::SseView;
use crate::model::{
    comment_prefix, complete_line, data_prefix, decimal, decimal_digits, encode_block,
    encode_comment, encode_result,
    event_prefix, field_name, field_value, first_colon, id_prefix, interpret_line, is_digit,
    is_digits, is_line_end, join_data, lemma_first_colon, lemma_run_after_cr, lemma_run_append,
    lemma_run_one,
    lemma_run_plain, lemma_strip_bom_noop, line_field, name_data, name_event, name_id,
    name_retry, no_line_end, normalize_line_ends, prefix_lines, retry_prefix, run, step,
    strip_bom, strip_space, text_field, valid_event_text, valid_id_text, Emit, ReadState,
};

verus! {

/// Concatenation of chunks.
pub open spec fn flatten(chunks: Seq<Seq<u8>>) -> Seq<u8>
    decreases chunks.len(),
{
    if chunks.len() == 0 {
        seq![]
    } else {
        flatten(chunks.drop_last()) + chunks.last()
    }
}

/// Reading chunks one after another, each from where the last one left off.
pub open spec fn run_chunks(strict: bool, st: ReadState, chunks: Seq<Seq<u8>>) -> (ReadState, Seq<Emit>)
    decreases chunks.len(),
{
    if chunks.len() == 0 {
        (st, seq![])
    } else {
        let (st1, out1) = run_chunks(strict, st, chunks.drop_last());
        let (st2, out2) = run(strict, st1, chunks.last());
        (st2, out1 + out2)
    }
}

/// How the input is split into chunks never changes what is decoded: reading
/// the chunks one after another is reading their concatenation.
pub proof fn law_chunking_is_invisible(strict: bool, st: ReadState, chunks: Seq<Seq<u8>>)
    ensures
        run_chunks(strict, st, chunks) == run(strict, st, flatten(chunks)),
    decreases chunks.len(),
{
    if chunks.len() == 0 {
        assert(run(strict, st, Seq::<u8>::empty()) == (st, Seq::<Emit>::empty()));
    } else {
        law_chunking_is_invisible(strict, st, chunks.drop_last());
        lemma_run_append(strict, st, flatten(chunks.drop_last()), chunks.last());
    }
}

/// Fields are not inherited: a block that is handed out leaves an empty block behind.
pub proof fn law_blocks_start_empty(strict: bool, st: ReadState, b: u8)
    requires
        step(strict, st, b).1 matches Some(Emit::Event(_)),
    ensures
        step(strict, st, b).0.block == SseView::empty(),
{
}

/// An empty line hands out the block exactly when it holds a field.
pub proof fn law_empty_line_dispatches(strict: bool, block: SseView)
    ensures
        interpret_line(strict, block, seq![]) == if block.has_fields() {
            (SseView::empty(), Some(Emit::Event(block)))
        } else {
            (block, None)
        },
{
}

/// By default an unknown field changes nothing; a strict reader faults.
pub proof fn law_unknown_fields(strict: bool, block: SseView, line: Seq<u8>)
    requires
        line.len() > 0,
        field_name(line).len() > 0,
        field_name(line) != name_data(),
        field_name(line) != name_event(),
        field_name(line) != name_id(),
        field_name(line) != name_retry(),
    ensures
        interpret_line(strict, block, line) == if strict {
            (block, Some(Emit::UnknownField))
        } else {
            (block, None)
        },
{
}

/// An id holding NULL is ignored: the block keeps its previous id.
pub proof fn law_null_id_ignored(strict: bool, block: SseView, line: Seq<u8>)
    requires
        line.len() > 0,
        field_name(line) == name_id(),
        field_value(line).contains(0u8),
    ensures
        interpret_line(strict, block, line) == (block, None::<Emit>),
{
    assert(name_id() != name_data()) by {
        assert(name_id().len() != name_data().len());
    }
    assert(name_id() != name_event()) by {
        assert(name_id().len() != name_event().len());
    }
}

// ---------------------------------------------------------------------------
// Encoding and decoding
// ---------------------------------------------------------------------------

/// CRLF and bare CR become LF, on text.
pub open spec fn normalize_text(d: Seq<char>) -> Seq<char>
    decreases d.len(),
{
    if d.len() == 0 {
        seq![]
    } else {
        let init = d.drop_last();
        let c = d.last();
        if c == '\n' && init.len() > 0 && init.last() == '\r' {
            normalize_text(init)
        } else if c == '\r' {
            normalize_text(init).push('\n')
        } else {
            normalize_text(init).push(c)
        }
    }
}

/// A block as it reads back after encoding: data line endings normalized.
pub open spec fn normalized(e: SseView) -> SseView {
    SseView {
        data: match e.data {
            Some(d) => Some(normalize_text(d)),
            None => None,
        },
        ..e
    }
}

proof fn lemma_encode_concat(a: Seq<char>, b: Seq<char>)
    ensures
        encode_utf8(a + b) == encode_utf8(a) + encode_utf8(b),
    decreases a.len(),
{
    if a.len() == 0 {
        assert(a + b =~= b);
        assert(encode_utf8(a) =~= Seq::<u8>::empty());
        assert(Seq::<u8>::empty() + encode_utf8(b) =~= encode_utf8(b));
    } else {
        lemma_encode_concat(a.drop_first(), b);
        assert((a + b).drop_first() =~= a.drop_first() + b);
        assert((a + b)[0] == a[0]);
        assert(encode_scalar_of(a[0]) + (encode_utf8(a.drop_first()) + encode_utf8(b))
            =~= (encode_scalar_of(a[0]) + encode_utf8(a.drop_first())) + encode_utf8(b));
    }
}

spec fn encode_scalar_of(c: char) -> Seq<u8> {
    vstd::utf8::encode_scalar(c as u32)
}

proof fn lemma_encode_push(a: Seq<char>, c: char)
    ensures
        encode_utf8(a.push(c)) == encode_utf8(a) + encode_utf8(seq![c]),
{
    assert(a.push(c) =~= a + seq![c]);
    lemma_encode_concat(a, seq![c]);
}

/// The encoding of one char: LF and CR are single bytes, and no other char
/// encodes to a byte CR or LF; only NULL encodes to a zero byte.
proof fn lemma_encode_char(c: char)
    ensures
        encode_utf8(seq![c]).len() > 0,
        c == '\n' ==> encode_utf8(seq![c]) == seq![10u8],
        c == '\r' ==> encode_utf8(seq![c]) == seq![13u8],
        c != '\n' && c != '\r' ==> no_line_end(encode_utf8(seq![c])),
{
    let s = c as u32;
    vstd::utf8::char_is_scalar(c);
    assert(seq![c].drop_first() =~= Seq::<char>::empty());
    assert(encode_utf8(Seq::<char>::empty()) =~= Seq::<u8>::empty());
    assert(seq![c][0] == c);
    assert(encode_utf8(seq![c]) == vstd::utf8::encode_scalar(s) + encode_utf8(Seq::<char>::empty()));
    assert(encode_utf8(seq![c]) =~= vstd::utf8::encode_scalar(s));
    if vstd::utf8::has_width_1_encoding(s) {
        assert((s & 0x7F) as u8 == s as u8) by (bit_vector)
            requires
                s <= 0x7F,
        ;
        if c == '\n' {
            assert(s == 10);
        } else if c == '\r' {
            assert(s == 13);
        } else {
            assert(s != 10 && s != 13) by {
                if s == 10 {
                    vstd::utf8::char_u32_cast(c, s);
                    assert((10u32 as char) == '\n');
                }
                if s == 13 {
                    vstd::utf8::char_u32_cast(c, s);
                    assert((13u32 as char) == '\r');
                }
            }
            assert(no_line_end(encode_utf8(seq![c]))) by {
                assert forall|i: int| 0 <= i < encode_utf8(seq![c]).len() implies !is_line_end(#[trigger] encode_utf8(seq![c])[i]) by {
                    assert(encode_utf8(seq![c])[0] == s as u8);
                    assert(s as u8 != 10u8 && s as u8 != 13u8) by (bit_vector)
                        requires
                            s <= 0x7F,
                            s != 10,
                            s != 13,
                    ;
                }
            }
        }
    } else {
        assert(c != '\n' && c != '\r') by {
            if c == '\n' {
                assert(s == 10);
            }
            if c == '\r' {
                assert(s == 13);
            }
        }
        let bytes = encode_utf8(seq![c]);
        assert forall|x: u8| #![trigger (0x80u8 | x)] (0x80u8 | x) != 10u8 && (0x80u8 | x) != 13u8 by {
            assert((0x80u8 | x) != 10u8 && (0x80u8 | x) != 13u8) by (bit_vector);
        }
        assert forall|x: u8| #![trigger (0xC0u8 | x)] (0xC0u8 | x) != 10u8 && (0xC0u8 | x) != 13u8 by {
            assert((0xC0u8 | x) != 10u8 && (0xC0u8 | x) != 13u8) by (bit_vector);
        }
        assert forall|x: u8| #![trigger (0xE0u8 | x)] (0xE0u8 | x) != 10u8 && (0xE0u8 | x) != 13u8 by {
            assert((0xE0u8 | x) != 10u8 && (0xE0u8 | x) != 13u8) by (bit_vector);
        }
        assert forall|x: u8| #![trigger (0xF0u8 | x)] (0xF0u8 | x) != 10u8 && (0xF0u8 | x) != 13u8 by {
            assert((0xF0u8 | x) != 10u8 && (0xF0u8 | x) != 13u8) by (bit_vector);
        }
        assert(no_line_end(bytes));
    }
}

/// Appending bytes without line endings commutes with normalization.
proof fn lemma_normalize_append_plain(x: Seq<u8>, y: Seq<u8>)
    requires
        no_line_end(y),
    ensures
        normalize_line_ends(x + y) == normalize_line_ends(x) + y,
    decreases y.len(),
{
    if y.len() == 0 {
        assert(x + y =~= x);
        assert(normalize_line_ends(x) + y =~= normalize_line_ends(x));
    } else {
        let y0 = y.drop_last();
        assert(no_line_end(y0)) by {
            assert forall|i: int| 0 <= i < y0.len() implies !is_line_end(#[trigger] y0[i]) by {
                assert(y0[i] == y[i]);
            }
        }
        lemma_normalize_append_plain(x, y0);
        assert((x + y).drop_last() =~= x + y0);
        assert((x + y).last() == y.last());
        assert(!is_line_end(y[y.len() - 1]));
        assert(normalize_line_ends(x + y0).push(y.last()) =~= normalize_line_ends(x) + y);
    }
}

/// The last byte of an encoding is CR exactly when the last char is CR.
proof fn lemma_encode_last_cr(a: Seq<char>)
    ensures
        (encode_utf8(a).len() > 0 && encode_utf8(a).last() == 13u8) <==> (a.len() > 0 && a.last()
            == '\r'),
        encode_utf8(a).len() == 0 <==> a.len() == 0,
{
    if a.len() == 0 {
        assert(encode_utf8(a) =~= Seq::<u8>::empty());
    } else {
        let c = a.last();
        assert(a =~= a.drop_last().push(c));
        lemma_encode_push(a.drop_last(), c);
        lemma_encode_char(c);
        let e = encode_utf8(seq![c]);
        assert(encode_utf8(a).last() == e.last());
        if c != '\r' && c != '\n' {
            assert(!is_line_end(e[e.len() - 1]));
        }
    }
}

/// Normalizing the encoding of a text is encoding the normalized text.
proof fn lemma_normalize_encode(d: Seq<char>)
    ensures
        normalize_line_ends(encode_utf8(d)) == encode_utf8(normalize_text(d)),
    decreases d.len(),
{
    if d.len() == 0 {
        assert(encode_utf8(d) =~= Seq::<u8>::empty());
        assert(encode_utf8(Seq::<char>::empty()) =~= Seq::<u8>::empty());
    } else {
        let a = d.drop_last();
        let c = d.last();
        assert(d =~= a.push(c));
        lemma_normalize_encode(a);
        lemma_encode_push(a, c);
        lemma_encode_char(c);
        if c == '\n' {
            let x = encode_utf8(a).push(10u8);
            assert(encode_utf8(d) =~= x);
            assert(x.drop_last() =~= encode_utf8(a));
            assert(x.last() == 10u8);
            lemma_encode_last_cr(a);
            if a.len() > 0 && a.last() == '\r' {
                assert(normalize_line_ends(x) == normalize_line_ends(encode_utf8(a)));
                assert(normalize_text(d) == normalize_text(a));
            } else {
                assert(normalize_line_ends(x) == normalize_line_ends(encode_utf8(a)).push(10u8));
                lemma_encode_push(normalize_text(a), '\n');
                assert(normalize_text(d) == normalize_text(a).push('\n'));
                assert(encode_utf8(normalize_text(a)).push(10u8) =~= encode_utf8(normalize_text(a)) + seq![10u8]);
            }
        } else if c == '\r' {
            let x = encode_utf8(a).push(13u8);
            assert(encode_utf8(d) =~= x);
            assert(x.drop_last() =~= encode_utf8(a));
            assert(x.last() == 13u8);
            assert(normalize_line_ends(x) == normalize_line_ends(encode_utf8(a)).push(10u8));
            lemma_encode_push(normalize_text(a), '\n');
            lemma_encode_char('\n');
            assert(normalize_text(d) == normalize_text(a).push('\n'));
            assert(encode_utf8(normalize_text(a)).push(10u8) =~= encode_utf8(normalize_text(a)) + seq![10u8]);
        } else {
            lemma_normalize_append_plain(encode_utf8(a), encode_utf8(seq![c]));
            lemma_encode_push(normalize_text(a), c);
            assert(normalize_text(d) == normalize_text(a).push(c));
        }
    }
}

/// Normalized text holds no CR.
proof fn lemma_normalize_text_no_cr(d: Seq<char>)
    ensures
        !normalize_text(d).contains('\r'),
    decreases d.len(),
{
    if d.len() > 0 {
        lemma_normalize_text_no_cr(d.drop_last());
        let n0 = normalize_text(d.drop_last());
        assert forall|i: int| 0 <= i < normalize_text(d).len() implies normalize_text(d)[i] != '\r' by {
            if i < n0.len() {
                assert(normalize_text(d)[i] == n0[i]);
            }
        }
    }
}

/// Appending bytes without LF adds no prefixes.
proof fn lemma_prefix_lines_append_plain(p: Seq<u8>, x: Seq<u8>, y: Seq<u8>)
    requires
        no_line_end(y),
    ensures
        prefix_lines(p, x + y) == prefix_lines(p, x) + y,
    decreases y.len(),
{
    if y.len() == 0 {
        assert(x + y =~= x);
        assert(prefix_lines(p, x) + y =~= prefix_lines(p, x));
    } else {
        let y0 = y.drop_last();
        assert(no_line_end(y0)) by {
            assert forall|i: int| 0 <= i < y0.len() implies !is_line_end(#[trigger] y0[i]) by {
                assert(y0[i] == y[i]);
            }
        }
        lemma_prefix_lines_append_plain(p, x, y0);
        assert((x + y).drop_last() =~= x + y0);
        assert((x + y).last() == y.last());
        assert(!is_line_end(y[y.len() - 1]));
        assert((prefix_lines(p, x) + y0).push(y.last()) =~= prefix_lines(p, x) + y);
    }
}

/// Reading a line without line endings, then LF, from the start of a line.
proof fn lemma_read_line(strict: bool, st: ReadState, line: Seq<u8>)
    requires
        st.line == Seq::<u8>::empty(),
        !st.after_cr,
        no_line_end(line),
    ensures
        ({
            let (block, out) = complete_line(strict, ReadState { line, ..st });
            run(strict, st, line.push(10u8)) == (
                ReadState { line: seq![], after_cr: false, first_line: false, block },
                crate::model::emits(out),
            )
        }),
{
    lemma_run_append(strict, st, line, seq![10u8]);
    assert(line + seq![10u8] =~= line.push(10u8));
    lemma_run_plain(strict, st, line);
    assert(st.line + line =~= line);
    let st1 = ReadState { line, after_cr: false, ..st };
    assert(ReadState { line: st.line + line, after_cr: st.after_cr && line.len() == 0, ..st } == st1);
    lemma_run_one(strict, st1, 10u8);
    assert(Seq::<Emit>::empty() + crate::model::emits(step(strict, st1, 10u8).1) =~= crate::model::emits(step(strict, st1, 10u8).1));
}

/// A line `name: value`: its name, its value, and no BOM to remove.
proof fn lemma_field_line(name: Seq<u8>, v: Seq<u8>)
    requires
        name.len() > 0,
        name[0] != 0xEFu8,
        forall|i: int| 0 <= i < name.len() ==> #[trigger] name[i] != 58u8 && !is_line_end(name[i]),
        no_line_end(v),
    ensures
        ({
            let line = name + seq![58u8, 32u8] + v;
            &&& no_line_end(line)
            &&& strip_bom(line) == line
            &&& field_name(line) == name
            &&& field_value(line) == v
            &&& line.len() > 0
        }),
{
    let line = name + seq![58u8, 32u8] + v;
    assert forall|i: int| 0 <= i < line.len() implies !is_line_end(#[trigger] line[i]) by {
        if i < name.len() {
            assert(line[i] == name[i]);
        } else if i < name.len() + 2 {
        } else {
            assert(line[i] == v[i - name.len() - 2]);
        }
    }
    assert(line[0] == name[0]);
    lemma_strip_bom_noop(line);
    assert forall|j: int| 0 <= j < name.len() implies line[j] != 58u8 by {
        assert(line[j] == name[j]);
    }
    lemma_first_colon(line, name.len() as int);
    assert(line.take(name.len() as int) =~= name);
    assert(line.skip(name.len() as int + 1) =~= seq![32u8] + v);
    assert(strip_space(seq![32u8] + v) =~= v);
}

proof fn lemma_names()
    ensures
        name_data() != name_event(),
        name_data() != name_id(),
        name_data() != name_retry(),
        name_event() != name_id(),
        name_event() != name_retry(),
        name_id() != name_retry(),
        forall|i: int| 0 <= i < name_data().len() ==> #[trigger] name_data()[i] != 58u8 && !is_line_end(name_data()[i]),
        forall|i: int| 0 <= i < name_event().len() ==> #[trigger] name_event()[i] != 58u8 && !is_line_end(name_event()[i]),
        forall|i: int| 0 <= i < name_id().len() ==> #[trigger] name_id()[i] != 58u8 && !is_line_end(name_id()[i]),
        forall|i: int| 0 <= i < name_retry().len() ==> #[trigger] name_retry()[i] != 58u8 && !is_line_end(name_retry()[i]),
        data_prefix() == name_data() + seq![58u8, 32u8],
        event_prefix() == name_event() + seq![58u8, 32u8],
        id_prefix() == name_id() + seq![58u8, 32u8],
        retry_prefix() == name_retry() + seq![58u8, 32u8],
{
    assert(name_data().len() != name_event().len());
    assert(name_data()[1] != name_retry()[1]);
    assert(name_data().len() != name_id().len());
    assert(name_event().len() != name_id().len());
    assert(name_event()[0] != name_retry()[0]);
    assert(name_id().len() != name_retry().len());
}

/// The chars after the last LF.
pub open spec fn last_piece(d: Seq<char>) -> Seq<char>
    decreases d.len(),
{
    if d.len() == 0 {
        seq![]
    } else if d.last() == '\n' {
        seq![]
    } else {
        last_piece(d.drop_last()).push(d.last())
    }
}

/// The LF-separated pieces before the last one, joined with LF.
pub open spec fn pieces_before(d: Seq<char>) -> Option<Seq<char>>
    decreases d.len(),
{
    if d.len() == 0 {
        None
    } else if d.last() == '\n' {
        Some(join_data(pieces_before(d.drop_last()), last_piece(d.drop_last())))
    } else {
        pieces_before(d.drop_last())
    }
}

/// The pieces, joined with LF, give the text back.
proof fn lemma_pieces_join(d: Seq<char>)
    ensures
        join_data(pieces_before(d), last_piece(d)) == d,
    decreases d.len(),
{
    if d.len() == 0 {
    } else {
        lemma_pieces_join(d.drop_last());
        if d.last() == '\n' {
            assert(d.drop_last() + seq!['\n'] + Seq::<char>::empty() =~= d);
        } else {
            match pieces_before(d.drop_last()) {
                Some(p) => {
                    assert(p + seq!['\n'] + last_piece(d.drop_last()).push(d.last()) =~= (p + seq!['\n']
                        + last_piece(d.drop_last())).push(d.last()));
                },
                None => {},
            }
            assert(d.drop_last().push(d.last()) =~= d);
        }
    }
}

/// A text without CR, written as data lines and read back up to its last
/// line: the last line is still open, the others are in the block.
proof fn lemma_read_data_lines(strict: bool, st: ReadState, d: Seq<char>)
    requires
        st.line == Seq::<u8>::empty(),
        !st.after_cr,
        st.block.data is None,
        !d.contains('\r'),
    ensures
        run(strict, st, data_prefix() + prefix_lines(data_prefix(), encode_utf8(d))) == (
            ReadState {
                line: data_prefix() + encode_utf8(last_piece(d)),
                after_cr: false,
                first_line: st.first_line && !d.contains('\n'),
                block: SseView { data: pieces_before(d), ..st.block },
            },
            Seq::<Emit>::empty(),
        ),
    decreases d.len(),
{
    let p = data_prefix();
    lemma_names();
    assert(no_line_end(p)) by {
        assert forall|i: int| 0 <= i < p.len() implies !is_line_end(#[trigger] p[i]) by {
            if i < 4 {
                assert(p[i] == name_data()[i]);
            }
        }
    }
    if d.len() == 0 {
        assert(encode_utf8(d) =~= Seq::<u8>::empty());
        assert(prefix_lines(p, Seq::<u8>::empty()) =~= Seq::<u8>::empty());
        assert(p + Seq::<u8>::empty() =~= p);
        lemma_run_plain(strict, st, p);
        assert(st.line + p =~= p);
        assert(encode_utf8(last_piece(d)) =~= Seq::<u8>::empty());
        assert(p + Seq::<u8>::empty() =~= p);
        assert(!d.contains('\n'));
        assert(SseView { data: pieces_before(d), ..st.block } == st.block);
    } else {
        let a = d.drop_last();
        let c = d.last();
        assert(d =~= a.push(c));
        assert(!a.contains('\r')) by {
            assert forall|i: int| 0 <= i < a.len() implies a[i] != '\r' by {
                assert(a[i] == d[i]);
            }
        }
        assert(c != '\r') by {
            assert(d[d.len() - 1] == c);
        }
        lemma_read_data_lines(strict, st, a);
        let s1 = ReadState {
            line: p + encode_utf8(last_piece(a)),
            after_cr: false,
            first_line: st.first_line && !a.contains('\n'),
            block: SseView { data: pieces_before(a), ..st.block },
        };
        lemma_encode_push(a, c);
        lemma_encode_char(c);
        let head = p + prefix_lines(p, encode_utf8(a));
        if c == '\n' {
            assert(encode_utf8(d) =~= encode_utf8(a).push(10u8));
            assert(prefix_lines(p, encode_utf8(a).push(10u8)) == prefix_lines(p, encode_utf8(a)) + seq![10u8] + p) by {
                assert(encode_utf8(a).push(10u8).drop_last() =~= encode_utf8(a));
            }
            let whole = p + prefix_lines(p, encode_utf8(d));
            assert(whole =~= (head + seq![10u8]) + p);
            lemma_run_append(strict, st, head + seq![10u8], p);
            lemma_run_append(strict, st, head, seq![10u8]);
            lemma_run_one(strict, s1, 10u8);
            // The line that the LF completes: a data line holding the last piece.
            let v = encode_utf8(last_piece(a));
            assert(no_line_end(v)) by {
                lemma_last_piece_plain(a);
                lemma_no_line_end_text(last_piece(a));
            }
            lemma_field_line(name_data(), v);
            assert(s1.line == name_data() + seq![58u8, 32u8] + v);
            vstd::utf8::encode_utf8_valid_utf8(last_piece(a));
            vstd::utf8::encode_utf8_decode_utf8(last_piece(a));
            let (blk, out) = complete_line(strict, s1);
            assert(out is None);
            assert(blk == SseView { data: pieces_before(d), ..st.block });
            let s2 = ReadState { line: seq![], after_cr: false, first_line: false, block: blk };
            assert(step(strict, s1, 10u8) == (s2, None::<Emit>));
            lemma_run_plain(strict, s2, p);
            assert(s2.line + p =~= p);
            assert(encode_utf8(last_piece(d)) =~= Seq::<u8>::empty()) by {
                assert(last_piece(d) =~= Seq::<char>::empty());
            }
            assert(p + Seq::<u8>::empty() =~= p);
            assert(d.contains('\n')) by {
                assert(d[d.len() - 1] == '\n');
            }
            assert(Seq::<Emit>::empty() + Seq::<Emit>::empty() =~= Seq::<Emit>::empty());
        } else {
            let y = encode_utf8(seq![c]);
            lemma_prefix_lines_append_plain(p, encode_utf8(a), y);
            let whole = p + prefix_lines(p, encode_utf8(d));
            assert(whole =~= head + y);
            lemma_run_append(strict, st, head, y);
            lemma_run_plain(strict, s1, y);
            assert(last_piece(d) == last_piece(a).push(c));
            lemma_encode_push(last_piece(a), c);
            assert(s1.line + y =~= p + encode_utf8(last_piece(d)));
            assert(d.contains('\n') == a.contains('\n')) by {
                if d.contains('\n') {
                    let i = choose|i: int| 0 <= i < d.len() && d[i] == '\n';
                    assert(i < a.len());
                    assert(a[i] == d[i]);
                }
                if a.contains('\n') {
                    let i = choose|i: int| 0 <= i < a.len() && a[i] == '\n';
                    assert(d[i] == a[i]);
                }
            }
            assert(Seq::<Emit>::empty() + Seq::<Emit>::empty() =~= Seq::<Emit>::empty());
        }
    }
}

/// A text without CR or LF encodes without line endings.
proof fn lemma_no_line_end_text(d: Seq<char>)
    requires
        !d.contains('\r'),
        !d.contains('\n'),
    ensures
        no_line_end(encode_utf8(d)),
    decreases d.len(),
{
    if d.len() == 0 {
        assert(encode_utf8(d) =~= Seq::<u8>::empty());
    } else {
        let a = d.drop_last();
        let c = d.last();
        assert(d =~= a.push(c));
        assert(!a.contains('\r') && !a.contains('\n')) by {
            assert forall|i: int| 0 <= i < a.len() implies a[i] != '\r' && a[i] != '\n' by {
                assert(a[i] == d[i]);
            }
        }
        assert(c != '\r' && c != '\n') by {
            assert(d[d.len() - 1] == c);
        }
        lemma_no_line_end_text(a);
        lemma_encode_push(a, c);
        lemma_encode_char(c);
        let x = encode_utf8(a);
        let y = encode_utf8(seq![c]);
        assert forall|i: int| 0 <= i < (x + y).len() implies !is_line_end(#[trigger] (x + y)[i]) by {
            if i < x.len() {
                assert((x + y)[i] == x[i]);
            } else {
                assert((x + y)[i] == y[i - x.len()]);
            }
        }
    }
}

/// The last piece holds no LF, and no CR when the text holds none.
proof fn lemma_last_piece_plain(d: Seq<char>)
    requires
        !d.contains('\r'),
    ensures
        !last_piece(d).contains('\r'),
        !last_piece(d).contains('\n'),
    decreases d.len(),
{
    if d.len() > 0 {
        let a = d.drop_last();
        assert(!a.contains('\r')) by {
            assert forall|i: int| 0 <= i < a.len() implies a[i] != '\r' by {
                assert(a[i] == d[i]);
            }
        }
        lemma_last_piece_plain(a);
        assert(d[d.len() - 1] != '\r');
        if d.last() != '\n' {
            let l = last_piece(a).push(d.last());
            assert forall|i: int| 0 <= i < l.len() implies l[i] != '\r' && l[i] != '\n' by {
                if i < last_piece(a).len() {
                    assert(l[i] == last_piece(a)[i]);
                }
            }
        }
    }
}

/// ASCII bytes are valid UTF-8.
proof fn lemma_ascii_valid(s: Seq<u8>)
    requires
        forall|i: int| 0 <= i < s.len() ==> #[trigger] s[i] <= 0x7Fu8,
    ensures
        valid_utf8(s),
{
    assert(s.subrange(0, 0) =~= Seq::<u8>::empty());
    assert(valid_utf8(Seq::<u8>::empty()));
    assert forall|i: int| 0 <= 0 <= i < s.len() <= s.len() implies #[trigger] vstd::utf8::is_leading_byte_width_1(s[i]) by {
    }
    vstd::utf8::partial_valid_utf8_extend_ascii_block(s, 0, s.len() as int);
    assert(s.subrange(0, s.len() as int) =~= s);
}

/// The decimal digits of `n` read back as `n`.
proof fn lemma_decimal_digits(n: nat)
    ensures
        is_digits(decimal_digits(n)),
        decimal(decimal_digits(n)) == n,
        forall|i: int| 0 <= i < decimal_digits(n).len() ==> #[trigger] decimal_digits(n)[i] <= 0x7Fu8,
        no_line_end(decimal_digits(n)),
    decreases n,
{
    let s = decimal_digits(n);
    if n < 10 {
        assert(s.drop_last() =~= Seq::<u8>::empty());
        assert(decimal(Seq::<u8>::empty()) == 0);
    } else {
        lemma_decimal_digits(n / 10);
        let t = decimal_digits(n / 10);
        assert(s.drop_last() =~= t);
        vstd::arithmetic::div_mod::lemma_fundamental_div_mod(n as int, 10);
        assert forall|i: int| 0 <= i < s.len() implies is_digit(#[trigger] s[i]) && s[i] <= 0x7Fu8 by {
            if i < t.len() {
                assert(s[i] == t[i]);
            }
        }
    }
    assert forall|i: int| 0 <= i < s.len() implies !is_line_end(#[trigger] s[i]) by {
        assert(is_digit(s[i]));
    }
}

/// Reading a data field from the start of a line.
proof fn lemma_read_data_field(strict: bool, st: ReadState, d0: Seq<char>)
    requires
        st.line == Seq::<u8>::empty(),
        !st.after_cr,
        st.block.data is None,
    ensures
        run(strict, st, text_field(data_prefix(), encode_utf8(d0))) == (
            ReadState {
                line: seq![],
                after_cr: false,
                first_line: false,
                block: SseView { data: Some(normalize_text(d0)), ..st.block },
            },
            Seq::<Emit>::empty(),
        ),
{
    let p = data_prefix();
    let d = normalize_text(d0);
    lemma_normalize_encode(d0);
    lemma_normalize_text_no_cr(d0);
    lemma_names();
    let head = p + prefix_lines(p, encode_utf8(d));
    assert(text_field(p, encode_utf8(d0)) =~= head + seq![10u8]);
    lemma_run_append(strict, st, head, seq![10u8]);
    lemma_read_data_lines(strict, st, d);
    let s1 = ReadState {
        line: p + encode_utf8(last_piece(d)),
        after_cr: false,
        first_line: st.first_line && !d.contains('\n'),
        block: SseView { data: pieces_before(d), ..st.block },
    };
    lemma_run_one(strict, s1, 10u8);
    let v = encode_utf8(last_piece(d));
    lemma_last_piece_plain(d);
    lemma_no_line_end_text(last_piece(d));
    lemma_field_line(name_data(), v);
    vstd::utf8::encode_utf8_valid_utf8(last_piece(d));
    vstd::utf8::encode_utf8_decode_utf8(last_piece(d));
    lemma_pieces_join(d);
    let (blk, out) = complete_line(strict, s1);
    assert(out is None);
    assert(blk == SseView { data: Some(d), ..st.block });
    assert(Seq::<Emit>::empty() + Seq::<Emit>::empty() =~= Seq::<Emit>::empty());
}

/// Reading a single-line field `prefix value` from the start of a line.
proof fn lemma_read_single(strict: bool, st: ReadState, name: Seq<u8>, v: Seq<u8>)
    requires
        st.line == Seq::<u8>::empty(),
        !st.after_cr,
        name.len() > 0,
        name[0] != 0xEFu8,
        forall|i: int| 0 <= i < name.len() ==> #[trigger] name[i] != 58u8 && !is_line_end(name[i]),
        no_line_end(v),
    ensures
        run(strict, st, line_field(name + seq![58u8, 32u8], v)) == (
            ReadState {
                line: seq![],
                after_cr: false,
                first_line: false,
                block: interpret_line(strict, st.block, name + seq![58u8, 32u8] + v).0,
            },
            crate::model::emits(interpret_line(strict, st.block, name + seq![58u8, 32u8] + v).1),
        ),
{
    let line = name + seq![58u8, 32u8] + v;
    lemma_field_line(name, v);
    assert(line_field(name + seq![58u8, 32u8], v) =~= line.push(10u8));
    lemma_read_line(strict, st, line);
}

/// Reading an event line.
proof fn lemma_read_event_field(strict: bool, st: ReadState, v: Seq<char>)
    requires
        st.line == Seq::<u8>::empty(),
        !st.after_cr,
        valid_event_text(v),
    ensures
        run(strict, st, line_field(event_prefix(), encode_utf8(v))) == (
            ReadState {
                line: seq![],
                after_cr: false,
                first_line: false,
                block: SseView { event: Some(v), ..st.block },
            },
            Seq::<Emit>::empty(),
        ),
{
    lemma_names();
    let value = encode_utf8(v);
    lemma_read_single(strict, st, name_event(), value);
    let line = name_event() + seq![58u8, 32u8] + value;
    lemma_field_line(name_event(), value);
    vstd::utf8::encode_utf8_valid_utf8(v);
    vstd::utf8::encode_utf8_decode_utf8(v);
    assert(field_name(line) == name_event());
    assert(interpret_line(strict, st.block, line) == (SseView { event: Some(v), ..st.block }, None::<Emit>));
}

/// Reading an id line.
proof fn lemma_read_id_field(strict: bool, st: ReadState, v: Seq<char>)
    requires
        st.line == Seq::<u8>::empty(),
        !st.after_cr,
        valid_id_text(v),
    ensures
        run(strict, st, line_field(id_prefix(), encode_utf8(v))) == (
            ReadState {
                line: seq![],
                after_cr: false,
                first_line: false,
                block: SseView { id: Some(v), ..st.block },
            },
            Seq::<Emit>::empty(),
        ),
{
    lemma_names();
    let value = encode_utf8(v);
    lemma_read_single(strict, st, name_id(), value);
    let line = name_id() + seq![58u8, 32u8] + value;
    lemma_field_line(name_id(), value);
    vstd::utf8::encode_utf8_valid_utf8(v);
    vstd::utf8::encode_utf8_decode_utf8(v);
    assert(field_name(line) == name_id());
    assert(interpret_line(strict, st.block, line) == (SseView { id: Some(v), ..st.block }, None::<Emit>));
}

/// Reading a retry line.
proof fn lemma_read_retry_field(strict: bool, st: ReadState, r: u64)
    requires
        st.line == Seq::<u8>::empty(),
        !st.after_cr,
    ensures
        run(strict, st, line_field(retry_prefix(), decimal_digits(r as nat))) == (
            ReadState {
                line: seq![],
                after_cr: false,
                first_line: false,
                block: SseView { retry: Some(r), ..st.block },
            },
            Seq::<Emit>::empty(),
        ),
{
    lemma_names();
    let value = decimal_digits(r as nat);
    lemma_decimal_digits(r as nat);
    lemma_ascii_valid(value);
    lemma_read_single(strict, st, name_retry(), value);
    let line = name_retry() + seq![58u8, 32u8] + value;
    lemma_field_line(name_retry(), value);
    assert(field_name(line) == name_retry());
    assert(interpret_line(strict, st.block, line) == (SseView { retry: Some(r), ..st.block }, None::<Emit>));
}

/// The state at the start of a line with `block`.
pub open spec fn at_line_start(st: ReadState, block: SseView) -> bool {
    st.line == Seq::<u8>::empty() && !st.after_cr && st.block == block
}

/// Encoding a block and reading it back gives the block with its data line
/// endings normalized, in any mode, when the block holds a field and its
/// metadata can be written.
#[verifier::spinoff_prover]
#[verifier::rlimit(40)]
pub proof fn law_encode_then_decode(strict: bool, st: ReadState, e: SseView)
    requires
        at_line_start(st, SseView::empty()),
        encode_result(e) is Ok,
        e.has_fields(),
    ensures
        run(strict, st, encode_block(e)) == (
            ReadState { line: seq![], after_cr: false, first_line: false, block: SseView::empty() },
            seq![Emit::Event(normalized(e))],
        ),
{
    lemma_names();
    let ev = match e.event {
        Some(v) => line_field(event_prefix(), encode_utf8(v)),
        None => Seq::<u8>::empty(),
    };
    let da = match e.data {
        Some(v) => text_field(data_prefix(), encode_utf8(v)),
        None => Seq::<u8>::empty(),
    };
    let id = match e.id {
        Some(v) => line_field(id_prefix(), encode_utf8(v)),
        None => Seq::<u8>::empty(),
    };
    let re = match e.retry {
        Some(r) => line_field(retry_prefix(), decimal_digits(r as nat)),
        None => Seq::<u8>::empty(),
    };
    assert(encode_block(e) == ev + da + id + re + seq![10u8]);
    let fl1 = st.first_line && e.event is None;
    let b1 = SseView { event: e.event, ..SseView::empty() };
    let s1 = ReadState { line: seq![], after_cr: false, first_line: fl1, block: b1 };
    // The event line.
    match e.event {
        Some(v) => {
            lemma_read_event_field(strict, st, v);
        },
        None => {
            assert(run(strict, st, ev) == (st, Seq::<Emit>::empty()));
            assert(st == s1);
        },
    }
    assert(run(strict, st, ev) == (s1, Seq::<Emit>::empty()));
    // The data lines.
    let fl2 = fl1 && e.data is None;
    let b2 = SseView { data: normalized(e).data, ..b1 };
    let s2 = ReadState { line: seq![], after_cr: false, first_line: fl2, block: b2 };
    match e.data {
        Some(v) => {
            lemma_read_data_field(strict, s1, v);
        },
        None => {
            assert(run(strict, s1, da) == (s1, Seq::<Emit>::empty()));
            assert(s1 == s2);
        },
    }
    assert(run(strict, s1, da) == (s2, Seq::<Emit>::empty()));
    // The id line.
    let fl3 = fl2 && e.id is None;
    let b3 = SseView { id: e.id, ..b2 };
    let s3 = ReadState { line: seq![], after_cr: false, first_line: fl3, block: b3 };
    match e.id {
        Some(v) => {
            lemma_read_id_field(strict, s2, v);
        },
        None => {
            assert(run(strict, s2, id) == (s2, Seq::<Emit>::empty()));
            assert(s2 == s3);
        },
    }
    assert(run(strict, s2, id) == (s3, Seq::<Emit>::empty()));
    // The retry line.
    let fl4 = fl3 && e.retry is None;
    let b4 = SseView { retry: e.retry, ..b3 };
    let s4 = ReadState { line: seq![], after_cr: false, first_line: fl4, block: b4 };
    match e.retry {
        Some(r) => {
            lemma_read_retry_field(strict, s3, r);
        },
        None => {
            assert(run(strict, s3, re) == (s3, Seq::<Emit>::empty()));
            assert(s3 == s4);
        },
    }
    assert(run(strict, s3, re) == (s4, Seq::<Emit>::empty()));
    assert(b4 == normalized(e));
    // The empty line that ends the block.
    lemma_run_one(strict, s4, 10u8);
    lemma_strip_bom_noop(Seq::<u8>::empty());
    lemma_run_append(strict, st, ev, da);
    lemma_run_append(strict, st, ev + da, id);
    lemma_run_append(strict, st, ev + da + id, re);
    lemma_run_append(strict, st, ev + da + id + re, seq![10u8]);
    assert(Seq::<Emit>::empty() + Seq::<Emit>::empty() =~= Seq::<Emit>::empty());
    assert(Seq::<Emit>::empty() + seq![Emit::Event(normalized(e))] =~= seq![Emit::Event(normalized(e))]);
}

} // verus!

verus! {

// ---------------------------------------------------------------------------
// Comments
// ---------------------------------------------------------------------------

/// The bytes after the last LF.
spec fn after_last_lf(t: Seq<u8>) -> Seq<u8>
    decreases t.len(),
{
    if t.len() == 0 {
        seq![]
    } else if t.last() == 10u8 {
        seq![]
    } else {
        after_last_lf(t.drop_last()).push(t.last())
    }
}

/// Normalized text holds no CR.
proof fn lemma_normalize_no_cr(s: Seq<u8>)
    ensures
        forall|i: int| 0 <= i < normalize_line_ends(s).len() ==> #[trigger] normalize_line_ends(s)[i] != 13u8,
    decreases s.len(),
{
    if s.len() > 0 {
        let init = s.drop_last();
        lemma_normalize_no_cr(init);
        let n = normalize_line_ends(init);
        if !(s.last() == 10u8 && init.len() > 0 && init.last() == 13u8) {
            let b = if s.last() == 13u8 { 10u8 } else { s.last() };
            assert forall|i: int| 0 <= i < n.push(b).len() implies #[trigger] n.push(b)[i] != 13u8 by {
                if i < n.len() {
                    assert(n.push(b)[i] == n[i]);
                }
            }
        }
    }
}

/// A line that opens with a colon is a comment: it changes nothing.
proof fn lemma_comment_line(strict: bool, block: SseView, line: Seq<u8>)
    requires
        line.len() > 0,
        line[0] == 58u8,
    ensures
        strip_bom(line) == line,
        interpret_line(strict, block, line) == (block, None::<Emit>),
{
    lemma_strip_bom_noop(line);
    lemma_first_colon(line, 0);
    assert(field_name(line) =~= Seq::<u8>::empty());
    lemma_names();
    assert(name_data().len() > 0 && name_event().len() > 0 && name_id().len() > 0 && name_retry().len() > 0);
}

/// The comment lines of `t` (no CR in it), read from the start of a line:
/// nothing is handed out, the block stays, and the last line is still open.
proof fn lemma_read_comment_lines(strict: bool, st: ReadState, t: Seq<u8>)
    requires
        st.line == Seq::<u8>::empty(),
        !st.after_cr,
        forall|i: int| 0 <= i < t.len() ==> #[trigger] t[i] != 13u8,
    ensures
        run(strict, st, comment_prefix() + prefix_lines(comment_prefix(), t)).0.line
            == comment_prefix() + after_last_lf(t),
        !run(strict, st, comment_prefix() + prefix_lines(comment_prefix(), t)).0.after_cr,
        run(strict, st, comment_prefix() + prefix_lines(comment_prefix(), t)).0.block == st.block,
        run(strict, st, comment_prefix() + prefix_lines(comment_prefix(), t)).1 == Seq::<Emit>::empty(),
    decreases t.len(),
{
    let p = comment_prefix();
    assert(no_line_end(p));
    if t.len() == 0 {
        assert(p + prefix_lines(p, t) =~= p);
        lemma_run_plain(strict, st, p);
        assert(st.line + p =~= p);
        assert(p + after_last_lf(t) =~= p);
    } else {
        let a = t.drop_last();
        let b = t.last();
        assert forall|i: int| 0 <= i < a.len() implies #[trigger] a[i] != 13u8 by {
            assert(a[i] == t[i]);
        }
        assert(b != 13u8) by {
            assert(t[t.len() - 1] == b);
        }
        lemma_read_comment_lines(strict, st, a);
        let head = p + prefix_lines(p, a);
        let s1 = run(strict, st, head).0;
        if b == 10u8 {
            assert(p + prefix_lines(p, t) =~= (head + seq![10u8]) + p);
            lemma_run_append(strict, st, head + seq![10u8], p);
            lemma_run_append(strict, st, head, seq![10u8]);
            lemma_run_one(strict, s1, 10u8);
            assert(s1.line[0] == 58u8);
            lemma_comment_line(strict, s1.block, s1.line);
            let s2 = step(strict, s1, 10u8).0;
            assert(s2.line == Seq::<u8>::empty() && !s2.after_cr && s2.block == st.block);
            assert(step(strict, s1, 10u8).1 is None);
            lemma_run_plain(strict, s2, p);
            assert(s2.line + p =~= p);
            assert(p + after_last_lf(t) =~= p);
            assert(Seq::<Emit>::empty() + Seq::<Emit>::empty() + Seq::<Emit>::empty() =~= Seq::<Emit>::empty());
        } else {
            assert(p + prefix_lines(p, t) =~= head + seq![b]);
            lemma_run_append(strict, st, head, seq![b]);
            lemma_run_one(strict, s1, b);
            assert((p + after_last_lf(a)).push(b) =~= p + after_last_lf(t));
            assert(Seq::<Emit>::empty() + Seq::<Emit>::empty() =~= Seq::<Emit>::empty());
        }
    }
}

/// A comment, such as a keep-alive, cannot inject anything: its lines leave
/// the block as it was and hand out nothing, and the empty line that closes
/// it acts as any empty line does. So read at the start of a line with no
/// field pending, a comment yields nothing at all.
pub proof fn law_comment_adds_nothing(strict: bool, st: ReadState, c: Seq<char>)
    requires
        st.line == Seq::<u8>::empty(),
    ensures
        run(strict, st, encode_comment(c)) == (
            ReadState {
                line: seq![],
                after_cr: false,
                first_line: false,
                block: interpret_line(strict, st.block, seq![]).0,
            },
            crate::model::emits(interpret_line(strict, st.block, seq![]).1),
        ),
{
    let p = comment_prefix();
    let t = normalize_line_ends(encode_utf8(c));
    let stn = ReadState { after_cr: false, ..st };
    let head = p + prefix_lines(p, t);
    assert(encode_comment(c) =~= (head + seq![10u8]) + seq![10u8]);
    assert(encode_comment(c)[0] == 58u8);
    lemma_run_after_cr(strict, st, encode_comment(c));
    lemma_normalize_no_cr(encode_utf8(c));
    lemma_read_comment_lines(strict, stn, t);
    lemma_run_append(strict, stn, head + seq![10u8], seq![10u8]);
    lemma_run_append(strict, stn, head, seq![10u8]);
    let s1 = run(strict, stn, head).0;
    lemma_run_one(strict, s1, 10u8);
    assert(s1.line[0] == 58u8);
    lemma_comment_line(strict, s1.block, s1.line);
    let s2 = step(strict, s1, 10u8).0;
    assert(s2 == ReadState { line: seq![], after_cr: false, first_line: false, block: st.block });
    lemma_run_one(strict, s2, 10u8);
    assert(strip_bom(Seq::<u8>::empty()) == Seq::<u8>::empty());
    let out = interpret_line(strict, st.block, seq![]).1;
    assert(Seq::<Emit>::empty() + Seq::<Emit>::empty() + crate::model::emits(out) =~= crate::model::emits(out));
}

} // verus!

verus! {

// ---------------------------------------------------------------------------
// Field rules
// ---------------------------------------------------------------------------

/// A field without a colon has an empty value: `name` reads as `name:`.
pub proof fn law_colonless_field_is_empty(strict: bool, block: SseView, line: Seq<u8>)
    requires
        line.len() > 0,
        !line.contains(58u8),
    ensures
        interpret_line(strict, block, line) == interpret_line(strict, block, line.push(58u8)),
{
    let full = line.push(58u8);
    lemma_first_colon(line, line.len() as int);
    assert forall|j: int| 0 <= j < line.len() implies full[j] != 58u8 by {
        assert(full[j] == line[j]);
    }
    lemma_first_colon(full, line.len() as int);
    assert(field_name(line) =~= line);
    assert(field_name(full) =~= line);
    assert(full.skip(line.len() as int + 1) =~= Seq::<u8>::empty());
    assert(field_value(line) =~= field_value(full));
}

/// A metadata line that the reader takes: an event type, an id, or a retry
/// value, holding valid UTF-8, and for an id no NULL, and for a retry only
/// digits that fit in `u64`.
pub open spec fn sets_metadata(line: Seq<u8>) -> bool {
    let name = field_name(line);
    let value = field_value(line);
    &&& line.len() > 0
    &&& valid_utf8(value)
    &&& (name == name_event() || (name == name_id() && !value.contains(0u8)) || (name == name_retry()
        && is_digits(value) && decimal(value) <= u64::MAX))
}

/// Repeated metadata fields use the last valid value: after any line that
/// hands nothing out, a line that sets a metadata field gives the block that
/// it would have given alone, but for the fields that the first line set.
pub proof fn law_last_valid_metadata_wins(strict: bool, block: SseView, first: Seq<u8>, second: Seq<u8>)
    requires
        first.len() > 0,
        field_name(first) == field_name(second),
        interpret_line(strict, block, first).1 is None,
        sets_metadata(second),
    ensures
        interpret_line(strict, interpret_line(strict, block, first).0, second)
            == interpret_line(strict, block, second),
{
    lemma_names();
}

/// A metadata line that the reader does not take leaves the block unchanged:
/// an id holding NULL, or a retry value that is not a `u64` in digits.
pub proof fn law_ignored_metadata_keeps_block(strict: bool, block: SseView, line: Seq<u8>)
    requires
        line.len() > 0,
        valid_utf8(field_value(line)),
        (field_name(line) == name_id() && field_value(line).contains(0u8)) || (field_name(line)
            == name_retry() && !(is_digits(field_value(line)) && decimal(field_value(line))
            <= u64::MAX)),
    ensures
        interpret_line(strict, block, line) == (block, None::<Emit>),
{
    lemma_names();
}

} // verus!

verus! {

/// The wire form of blocks written one after another.
pub open spec fn encode_all(es: Seq<SseView>) -> Seq<u8>
    decreases es.len(),
{
    if es.len() == 0 {
        seq![]
    } else {
        encode_all(es.drop_last()) + encode_block(es.last())
    }
}

/// A body's frames read back in order: blocks encoded one after another are
/// decoded as the same blocks, data line endings normalized, when each holds
/// a field and its metadata can be written.
pub proof fn law_encode_all_then_decode(strict: bool, st: ReadState, es: Seq<SseView>)
    requires
        at_line_start(st, SseView::empty()),
        forall|i: int| 0 <= i < es.len() ==> (#[trigger] encode_result(es[i])) is Ok && es[i].has_fields(),
    ensures
        run(strict, st, encode_all(es)).1 == es.map_values(|e: SseView| Emit::Event(normalized(e))),
        at_line_start(run(strict, st, encode_all(es)).0, SseView::empty()),
    decreases es.len(),
{
    if es.len() == 0 {
        assert(es.map_values(|e: SseView| Emit::Event(normalized(e))) =~= Seq::<Emit>::empty());
    } else {
        let init = es.drop_last();
        assert forall|i: int| 0 <= i < init.len() implies (#[trigger] encode_result(init[i])) is Ok
            && init[i].has_fields() by {
            assert(init[i] == es[i]);
        }
        law_encode_all_then_decode(strict, st, init);
        let s1 = run(strict, st, encode_all(init)).0;
        assert(encode_result(es[es.len() - 1]) is Ok && es[es.len() - 1].has_fields());
        law_encode_then_decode(strict, s1, es.last());
        lemma_run_append(strict, st, encode_all(init), encode_block(es.last()));
        assert(es.map_values(|e: SseView| Emit::Event(normalized(e))) =~= init.map_values(
            |e: SseView| Emit::Event(normalized(e)),
        ) + seq![Emit::Event(normalized(es.last()))]);
    }
}

} // verus!

verus! {

/// Two decoders of the same policy that have read the same bytes, however
/// each received them, have handed out the same events in the same order.
pub proof fn law_decoders_agree_on_equal_input<S, T>(
    x: &crate::stream::SseByteStream<S>,
    y: &crate::stream::SseByteStream<T>,
)
    requires
        x.agrees(),
        y.agrees(),
        x.is_strict() == y.is_strict(),
        x.input() == y.input(),
    ensures
        x.emitted() == y.emitted(),
{
}

/// Two ways of splitting the same bytes into chunks read alike: the same
/// final state and the same events and faults, in the same order.
pub proof fn law_equal_bytes_read_alike(strict: bool, a: Seq<Seq<u8>>, b: Seq<Seq<u8>>)
    requires
        flatten(a) == flatten(b),
    ensures
        run_chunks(strict, ReadState::initial(), a) == run_chunks(strict, ReadState::initial(), b),
{
    law_chunking_is_invisible(strict, ReadState::initial(), a);
    law_chunking_is_invisible(strict, ReadState::initial(), b);
}

} // verus!

verus! {

// ---------------------------------------------------------------------------
// Field values, with or without a space after the colon
// ---------------------------------------------------------------------------

/// `name:` followed by `sep` and `v`: its name is `name` and its value `v`,
/// where `sep` is one space or nothing, and without the space `v` does not
/// itself open with a space.
proof fn lemma_field_parts(name: Seq<u8>, sep: Seq<u8>, v: Seq<u8>)
    requires
        name.len() > 0,
        forall|i: int| 0 <= i < name.len() ==> #[trigger] name[i] != 58u8,
        sep == seq![32u8] || (sep == Seq::<u8>::empty() && !(v.len() > 0 && v[0] == 32u8)),
    ensures
        ({
            let line = name + seq![58u8] + sep + v;
            &&& line.len() > 0
            &&& field_name(line) == name
            &&& field_value(line) == v
        }),
{
    let line = name + seq![58u8] + sep + v;
    assert forall|j: int| 0 <= j < name.len() implies line[j] != 58u8 by {
        assert(line[j] == name[j]);
    }
    assert(line[name.len() as int] == 58u8);
    lemma_first_colon(line, name.len() as int);
    assert(line.take(name.len() as int) =~= name);
    assert(line.skip(name.len() as int + 1) =~= sep + v);
    if sep.len() == 1 {
        assert((sep + v)[0] == 32u8);
        assert((sep + v).skip(1) =~= v);
    } else {
        assert(sep + v =~= v);
    }
}

/// An `event` line sets the event type to its value, whether or not a space
/// follows the colon: `event:v` and `event: v` read alike, and the value is
/// kept whole.
pub proof fn law_event_field_sets_event_type(strict: bool, block: SseView, v: Seq<u8>)
    requires
        valid_utf8(v),
    ensures
        interpret_line(strict, block, seq![101u8, 118u8, 101u8, 110u8, 116u8, 58u8, 32u8] + v) == (
            SseView { event: Some(decode_utf8(v)), ..block },
            None::<Emit>,
        ),
        !(v.len() > 0 && v[0] == 32u8) ==> interpret_line(
            strict,
            block,
            seq![101u8, 118u8, 101u8, 110u8, 116u8, 58u8] + v,
        ) == (SseView { event: Some(decode_utf8(v)), ..block }, None::<Emit>),
{
    let name = seq![101u8, 118u8, 101u8, 110u8, 116u8];
    assert(name =~= name_event());
    lemma_names();
    lemma_field_parts(name, seq![32u8], v);
    assert(name + seq![58u8] + seq![32u8] + v =~= seq![101u8, 118u8, 101u8, 110u8, 116u8, 58u8, 32u8] + v);
    if !(v.len() > 0 && v[0] == 32u8) {
        lemma_field_parts(name, Seq::<u8>::empty(), v);
        assert(name + seq![58u8] + Seq::<u8>::empty() + v =~= seq![101u8, 118u8, 101u8, 110u8, 116u8, 58u8] + v);
    }
}

/// A `data` line appends its value as a new line of the data, whether or not
/// a space follows the colon: the first data line is the value itself, a
/// later one is joined to the earlier ones by LF.
pub proof fn law_data_field_appends_line(strict: bool, block: SseView, v: Seq<u8>)
    requires
        valid_utf8(v),
    ensures
        ({
            let data = match block.data {
                None => decode_utf8(v),
                Some(d) => d + seq!['\n'] + decode_utf8(v),
            };
            &&& interpret_line(strict, block, seq![100u8, 97u8, 116u8, 97u8, 58u8, 32u8] + v) == (
                SseView { data: Some(data), ..block },
                None::<Emit>,
            )
            &&& !(v.len() > 0 && v[0] == 32u8) ==> interpret_line(
                strict,
                block,
                seq![100u8, 97u8, 116u8, 97u8, 58u8] + v,
            ) == (SseView { data: Some(data), ..block }, None::<Emit>)
        }),
{
    let name = seq![100u8, 97u8, 116u8, 97u8];
    assert(name =~= name_data());
    lemma_field_parts(name, seq![32u8], v);
    assert(name + seq![58u8] + seq![32u8] + v =~= seq![100u8, 97u8, 116u8, 97u8, 58u8, 32u8] + v);
    if !(v.len() > 0 && v[0] == 32u8) {
        lemma_field_parts(name, Seq::<u8>::empty(), v);
        assert(name + seq![58u8] + Seq::<u8>::empty() + v =~= seq![100u8, 97u8, 116u8, 97u8, 58u8] + v);
    }
}

/// An `id` line without NULL sets the id to its value, whether or not a space
/// follows the colon.
pub proof fn law_id_field_sets_id(strict: bool, block: SseView, v: Seq<u8>)
    requires
        valid_utf8(v),
        !v.contains(0u8),
    ensures
        interpret_line(strict, block, seq![105u8, 100u8, 58u8, 32u8] + v) == (
            SseView { id: Some(decode_utf8(v)), ..block },
            None::<Emit>,
        ),
        !(v.len() > 0 && v[0] == 32u8) ==> interpret_line(strict, block, seq![105u8, 100u8, 58u8] + v)
            == (SseView { id: Some(decode_utf8(v)), ..block }, None::<Emit>),
{
    let name = seq![105u8, 100u8];
    assert(name =~= name_id());
    lemma_names();
    lemma_field_parts(name, seq![32u8], v);
    assert(name + seq![58u8] + seq![32u8] + v =~= seq![105u8, 100u8, 58u8, 32u8] + v);
    if !(v.len() > 0 && v[0] == 32u8) {
        lemma_field_parts(name, Seq::<u8>::empty(), v);
        assert(name + seq![58u8] + Seq::<u8>::empty() + v =~= seq![105u8, 100u8, 58u8] + v);
    }
}

} // verus!

verus! {

// ---------------------------------------------------------------------------
// Which blocks can be written
// ---------------------------------------------------------------------------

/// Only NULL encodes to a zero byte.
proof fn lemma_encode_char_zero(c: char)
    ensures
        encode_utf8(seq![c]).contains(0u8) <==> c == '\0',
{
    let s = c as u32;
    vstd::utf8::char_is_scalar(c);
    assert(seq![c].drop_first() =~= Seq::<char>::empty());
    assert(encode_utf8(Seq::<char>::empty()) =~= Seq::<u8>::empty());
    assert(seq![c][0] == c);
    assert(encode_utf8(seq![c]) == vstd::utf8::encode_scalar(s) + encode_utf8(Seq::<char>::empty()));
    assert(encode_utf8(seq![c]) =~= vstd::utf8::encode_scalar(s));
    let bytes = encode_utf8(seq![c]);
    if vstd::utf8::has_width_1_encoding(s) {
        assert((s & 0x7F) as u8 == s as u8) by (bit_vector)
            requires
                s <= 0x7F,
        ;
        assert(bytes =~= seq![s as u8]);
        assert((s as u8 == 0u8) == (s == 0)) by (bit_vector)
            requires
                s <= 0x7F,
        ;
        if c == '\0' {
            assert(s == 0);
            assert(bytes[0] == 0u8);
        } else {
            assert(s != 0) by {
                if s == 0 {
                    vstd::utf8::char_u32_cast(c, s);
                    assert((0u32 as char) == '\0');
                }
            }
            assert(!bytes.contains(0u8)) by {
                if bytes.contains(0u8) {
                    let i = choose|i: int| 0 <= i < bytes.len() && bytes[i] == 0u8;
                    assert(i == 0);
                }
            }
        }
    } else {
        assert(c != '\0') by {
            if c == '\0' {
                assert(s == 0);
            }
        }
        assert forall|x: u8| #![trigger (0x80u8 | x)] (0x80u8 | x) != 0u8 by {
            assert((0x80u8 | x) != 0u8) by (bit_vector);
        }
        assert forall|x: u8| #![trigger (0xC0u8 | x)] (0xC0u8 | x) != 0u8 by {
            assert((0xC0u8 | x) != 0u8) by (bit_vector);
        }
        assert forall|x: u8| #![trigger (0xE0u8 | x)] (0xE0u8 | x) != 0u8 by {
            assert((0xE0u8 | x) != 0u8) by (bit_vector);
        }
        assert forall|x: u8| #![trigger (0xF0u8 | x)] (0xF0u8 | x) != 0u8 by {
            assert((0xF0u8 | x) != 0u8) by (bit_vector);
        }
        assert(!bytes.contains(0u8)) by {
            if bytes.contains(0u8) {
                let i = choose|i: int| 0 <= i < bytes.len() && bytes[i] == 0u8;
                assert(bytes[i] != 0u8);
            }
        }
    }
}

/// A text encodes without CR or LF bytes exactly when it holds no CR or LF
/// char, and with a zero byte exactly when it holds NULL.
proof fn lemma_text_bytes(v: Seq<char>)
    ensures
        no_line_end(encode_utf8(v)) <==> !(v.contains('\r') || v.contains('\n')),
        encode_utf8(v).contains(0u8) <==> v.contains('\0'),
    decreases v.len(),
{
    if v.len() == 0 {
        assert(encode_utf8(v) =~= Seq::<u8>::empty());
    } else {
        let a = v.drop_last();
        let c = v.last();
        assert(v =~= a.push(c));
        lemma_text_bytes(a);
        lemma_encode_push(a, c);
        lemma_encode_char(c);
        lemma_encode_char_zero(c);
        let x = encode_utf8(a);
        let y = encode_utf8(seq![c]);
        assert(encode_utf8(v) == x + y);
        assert forall|ch: char| v.contains(ch) <==> (a.contains(ch) || c == ch) by {
            if v.contains(ch) {
                let i = choose|i: int| 0 <= i < v.len() && v[i] == ch;
                if i < a.len() {
                    assert(a[i] == ch);
                }
            }
            if a.contains(ch) {
                let i = choose|i: int| 0 <= i < a.len() && a[i] == ch;
                assert(v[i] == ch);
            }
            if c == ch {
                assert(v[v.len() - 1] == ch);
            }
        }
        assert(no_line_end(x + y) <==> (no_line_end(x) && no_line_end(y))) by {
            if no_line_end(x) && no_line_end(y) {
                assert forall|i: int| 0 <= i < (x + y).len() implies !is_line_end(#[trigger] (x + y)[i]) by {
                    if i < x.len() {
                        assert((x + y)[i] == x[i]);
                    } else {
                        assert((x + y)[i] == y[i - x.len()]);
                    }
                }
            }
            if no_line_end(x + y) {
                assert forall|i: int| 0 <= i < x.len() implies !is_line_end(#[trigger] x[i]) by {
                    assert((x + y)[i] == x[i]);
                }
                assert forall|i: int| 0 <= i < y.len() implies !is_line_end(#[trigger] y[i]) by {
                    assert((x + y)[x.len() + i] == y[i]);
                }
            }
        }
        assert((x + y).contains(0u8) <==> (x.contains(0u8) || y.contains(0u8))) by {
            if (x + y).contains(0u8) {
                let i = choose|i: int| 0 <= i < (x + y).len() && (x + y)[i] == 0u8;
                if i < x.len() {
                    assert(x[i] == 0u8);
                } else {
                    assert(y[i - x.len()] == 0u8);
                }
            }
            if x.contains(0u8) {
                let i = choose|i: int| 0 <= i < x.len() && x[i] == 0u8;
                assert((x + y)[i] == 0u8);
            }
            if y.contains(0u8) {
                let i = choose|i: int| 0 <= i < y.len() && y[i] == 0u8;
                assert((x + y)[x.len() + i] == 0u8);
            }
        }
        if c == '\n' {
            assert(!no_line_end(y)) by {
                assert(y[0] == 10u8);
            }
        }
        if c == '\r' {
            assert(!no_line_end(y)) by {
                assert(y[0] == 13u8);
            }
        }
    }
}

/// What encoding accepts, said of the text: a block is written exactly when
/// its event type holds no CR or LF and its id holds no CR, LF or NULL; any
/// other char, such as `-` in a UUID, is fine. The event type is checked
/// first.
pub proof fn law_encode_accepts_exactly_representable_metadata(e: SseView)
    ensures
        encode_result(e) == if e.event matches Some(v) && (v.contains('\r') || v.contains('\n')) {
            Err(crate::error::EncodeError::InvalidEvent)
        } else if e.id matches Some(v) && (v.contains('\r') || v.contains('\n') || v.contains('\0')) {
            Err(crate::error::EncodeError::InvalidId)
        } else {
            Ok(encode_block(e))
        },
{
    if let Some(v) = e.event {
        lemma_text_bytes(v);
    }
    if let Some(v) = e.id {
        lemma_text_bytes(v);
    }
}

} // verus!

verus! {

// ---------------------------------------------------------------------------
// The encoding body
// ---------------------------------------------------------------------------

/// A body goes on after every event it can encode, whatever the event holds,
/// and sends it; it ends exactly on the end of the input, an input error, or
/// an event it cannot encode.
pub proof fn law_body_ends_only_on_end_or_error(
    item: Option<Result<crate::event::Sse, crate::error::BoxError>>,
    r: Option<Result<bytes::Bytes, crate::error::BodyError>>,
    ends: bool,
)
    requires
        crate::body::input_frame(item, r, ends),
    ensures
        ends <==> !(item matches Some(Ok(ev)) && encode_result(ev@) is Ok),
        item matches Some(Ok(ev)) ==> (encode_result(ev@) is Ok ==> (r matches Some(Ok(x))
            && crate::event::encode::bytes_view(x) == encode_block(ev@))),
{
}

} // verus!

verus! {

// ---------------------------------------------------------------------------
// Comments keep their text
// ---------------------------------------------------------------------------

/// Prefixing lines works piece by piece.
proof fn lemma_prefix_lines_concat(p: Seq<u8>, u: Seq<u8>, w: Seq<u8>)
    ensures
        prefix_lines(p, u + w) == prefix_lines(p, u) + prefix_lines(p, w),
    decreases w.len(),
{
    if w.len() == 0 {
        assert(u + w =~= u);
        assert(prefix_lines(p, u) + Seq::<u8>::empty() =~= prefix_lines(p, u));
    } else {
        let w0 = w.drop_last();
        lemma_prefix_lines_concat(p, u, w0);
        assert((u + w).drop_last() =~= u + w0);
        assert((u + w).last() == w.last());
        if w.last() == 10u8 {
            assert(prefix_lines(p, u) + (prefix_lines(p, w0) + seq![10u8] + p) =~= (prefix_lines(p, u)
                + prefix_lines(p, w0)) + seq![10u8] + p);
        } else {
            assert(prefix_lines(p, u) + prefix_lines(p, w0).push(w.last()) =~= (prefix_lines(p, u)
                + prefix_lines(p, w0)).push(w.last()));
        }
    }
}

/// Text without line endings gets no prefixes.
proof fn lemma_prefix_lines_none(p: Seq<u8>, t: Seq<u8>)
    requires
        no_line_end(t),
    ensures
        prefix_lines(p, t) == t,
    decreases t.len(),
{
    if t.len() > 0 {
        let t0 = t.drop_last();
        assert(no_line_end(t0)) by {
            assert forall|i: int| 0 <= i < t0.len() implies !is_line_end(#[trigger] t0[i]) by {
                assert(t0[i] == t[i]);
            }
        }
        lemma_prefix_lines_none(p, t0);
        assert(!is_line_end(t[t.len() - 1]));
        assert(t0.push(t.last()) =~= t);
    }
}

/// Normalizing works piece by piece, unless a CRLF is cut in two.
proof fn lemma_normalize_concat(u: Seq<u8>, w: Seq<u8>)
    requires
        !(u.len() > 0 && w.len() > 0 && u.last() == 13u8 && w[0] == 10u8),
    ensures
        normalize_line_ends(u + w) == normalize_line_ends(u) + normalize_line_ends(w),
    decreases w.len(),
{
    if w.len() == 0 {
        assert(u + w =~= u);
        assert(normalize_line_ends(w) =~= Seq::<u8>::empty());
        assert(normalize_line_ends(u) + Seq::<u8>::empty() =~= normalize_line_ends(u));
    } else {
        let w0 = w.drop_last();
        let b = w.last();
        if w0.len() > 0 {
            assert(w0[0] == w[0]);
        }
        lemma_normalize_concat(u, w0);
        assert((u + w).drop_last() =~= u + w0);
        assert((u + w).last() == b);
        let nu = normalize_line_ends(u);
        let nw0 = normalize_line_ends(w0);
        if w0.len() == 0 {
            assert(u + w0 =~= u);
            assert(nw0 =~= Seq::<u8>::empty());
            if u.len() > 0 {
                assert((u + w0).last() == u.last());
            }
        } else {
            assert((u + w0).last() == w0.last());
        }
        if b == 10u8 && w0.len() > 0 && w0.last() == 13u8 {
        } else if b == 13u8 {
            assert(nu + nw0.push(10u8) =~= (nu + nw0).push(10u8));
        } else {
            assert(nu + nw0.push(b) =~= (nu + nw0).push(b));
        }
    }
}

/// A one-line comment is written as `: `, its text whole, and the empty line
/// that closes it.
pub proof fn law_comment_single_line(c: Seq<char>)
    requires
        !c.contains('\r'),
        !c.contains('\n'),
    ensures
        encode_comment(c) == seq![58u8, 32u8] + encode_utf8(c) + seq![10u8, 10u8],
{
    let ec = encode_utf8(c);
    lemma_text_bytes(c);
    crate::model::lemma_normalize_plain(ec);
    lemma_prefix_lines_none(comment_prefix(), ec);
    assert(encode_comment(c) =~= seq![58u8, 32u8] + ec + seq![10u8, 10u8]);
}

/// A comment is written line by line: its first line, whole, as a comment
/// line, then the rest of the comment as a comment of its own. So no byte of
/// the text is lost or moved, and every line carries the `: ` prefix.
pub proof fn law_comment_line_by_line(a: Seq<char>, b: Seq<char>)
    requires
        !a.contains('\r'),
        !a.contains('\n'),
    ensures
        encode_comment(a + seq!['\n'] + b) == seq![58u8, 32u8] + encode_utf8(a) + seq![10u8]
            + encode_comment(b),
{
    let p = comment_prefix();
    let ea = encode_utf8(a);
    let eb = encode_utf8(b);
    lemma_text_bytes(a);
    lemma_encode_concat(a, seq!['\n']);
    lemma_encode_concat(a + seq!['\n'], b);
    lemma_encode_char('\n');
    let ea1 = ea + seq![10u8];
    assert(encode_utf8(a + seq!['\n'] + b) == ea1 + eb);
    lemma_normalize_concat(ea1, eb);
    crate::model::lemma_normalize_plain(ea);
    assert(ea1.drop_last() =~= ea);
    assert(normalize_line_ends(ea1) =~= ea1) by {
        if ea.len() > 0 {
            assert(!is_line_end(ea[ea.len() - 1]));
        }
    }
    let nb = normalize_line_ends(eb);
    lemma_prefix_lines_concat(p, ea1, nb);
    lemma_prefix_lines_concat(p, ea, seq![10u8]);
    lemma_prefix_lines_none(p, ea);
    assert(seq![10u8].drop_last() =~= Seq::<u8>::empty());
    assert(prefix_lines(p, seq![10u8]) =~= seq![10u8] + p);
    assert(encode_comment(a + seq!['\n'] + b) =~= seq![58u8, 32u8] + ea + seq![10u8] + encode_comment(b));
}

} // verus!

verus! {

/// A text whose last char is not CR encodes to bytes whose last is not CR.
proof fn lemma_encode_last_not_cr(a: Seq<char>)
    requires
        !(a.len() > 0 && a.last() == '\r'),
    ensures
        !(encode_utf8(a).len() > 0 && encode_utf8(a).last() == 13u8),
{
    if a.len() > 0 {
        let a0 = a.drop_last();
        let c = a.last();
        assert(a =~= a0.push(c));
        lemma_encode_push(a0, c);
        lemma_encode_char(c);
        let y = encode_utf8(seq![c]);
        assert(encode_utf8(a).last() == y[y.len() - 1]);
        if c != '\n' {
            assert(!is_line_end(y[y.len() - 1]));
        }
    } else {
        assert(encode_utf8(a) =~= Seq::<u8>::empty());
    }
}

/// In a comment, CRLF and a bare CR end a line as LF does.
pub proof fn law_comment_cr_ends_lines_as_lf(a: Seq<char>, b: Seq<char>)
    requires
        !(a.len() > 0 && a.last() == '\r'),
    ensures
        encode_comment(a + seq!['\r', '\n'] + b) == encode_comment(a + seq!['\n'] + b),
        !(b.len() > 0 && b[0] == '\n') ==> encode_comment(a + seq!['\r'] + b) == encode_comment(
            a + seq!['\n'] + b,
        ),
{
    let ea = encode_utf8(a);
    let eb = encode_utf8(b);
    lemma_encode_char('\n');
    lemma_encode_char('\r');
    lemma_encode_last_not_cr(a);
    // LF
    lemma_encode_concat(a, seq!['\n']);
    lemma_encode_concat(a + seq!['\n'], b);
    let lf = ea + seq![10u8];
    lemma_normalize_concat(lf, eb);
    assert(lf.drop_last() =~= ea);
    let nlf = normalize_line_ends(lf);
    assert(nlf == normalize_line_ends(ea).push(10u8));
    // CRLF
    assert(seq!['\r', '\n'] =~= seq!['\r'] + seq!['\n']);
    lemma_encode_concat(seq!['\r'], seq!['\n']);
    lemma_encode_concat(a, seq!['\r', '\n']);
    lemma_encode_concat(a + seq!['\r', '\n'], b);
    let crlf = ea + seq![13u8, 10u8];
    assert(encode_utf8(seq!['\r', '\n']) =~= seq![13u8, 10u8]);
    lemma_normalize_concat(crlf, eb);
    assert(crlf.drop_last() =~= ea + seq![13u8]);
    assert((ea + seq![13u8]).drop_last() =~= ea);
    assert((ea + seq![13u8]).last() == 13u8);
    assert(normalize_line_ends(ea + seq![13u8]) == normalize_line_ends(ea).push(10u8));
    assert(crlf.last() == 10u8 && crlf.drop_last().len() > 0 && crlf.drop_last().last() == 13u8);
    assert(normalize_line_ends(crlf) == normalize_line_ends(crlf.drop_last()));
    assert(normalize_line_ends(crlf) == nlf);
    assert(normalize_line_ends(crlf + eb) == normalize_line_ends(lf + eb));
    // CR
    if !(b.len() > 0 && b[0] == '\n') {
        lemma_encode_concat(a, seq!['\r']);
        lemma_encode_concat(a + seq!['\r'], b);
        let cr = ea + seq![13u8];
        assert(!(eb.len() > 0 && eb[0] == 10u8)) by {
            if b.len() > 0 {
                assert(b =~= seq![b[0]] + b.drop_first());
                lemma_encode_concat(seq![b[0]], b.drop_first());
                lemma_encode_char(b[0]);
                let y = encode_utf8(seq![b[0]]);
                assert(eb[0] == y[0]);
                if b[0] != '\r' {
                    assert(!is_line_end(y[0]));
                }
            } else {
                assert(eb =~= Seq::<u8>::empty());
            }
        }
        lemma_normalize_concat(cr, eb);
        assert(cr.drop_last() =~= ea);
        assert(cr.last() == 13u8);
        assert(normalize_line_ends(cr) == nlf);
        assert(normalize_line_ends(cr + eb) == normalize_line_ends(lf + eb));
    }
}

} // verus!

verus! {

/// A retry delay given in milliseconds is kept exactly when it fits in
/// `u64`, and saturates to `u64::MAX` only when it does not; it never grows
/// and never wraps.
pub proof fn law_retry_millis_saturates_only_above_u64(millis: u128)
    ensures
        millis <= u64::MAX ==> crate::event::saturate_millis(millis) as int == millis as int,
        millis > u64::MAX ==> crate::event::saturate_millis(millis) == u64::MAX,
        crate::event::saturate_millis(millis) as int <= millis as int,
{
}

} // verus!
