//! Heads on the wire: what a peer reads back from the bytes of a head that
//! was written, followed by whatever bytes come after it.
use vstd::prelude::*;
use vstd::utf8::*;

use crate::head::{
    blank_line_at, crlf_text, head_taken, header_block, header_line, lemma_block_front,
    lemma_head_end, lemma_head_round_trip, lemma_line_no_crlf, no_crlf, writable, HeaderText,
};
use crate::date::{http_date_text, month_name, weekday_name};
use crate::incoming::{message_of, request_of, response_of, IncomingView};
use crate::outgoing::{
    crlf, date_name, flushed_bytes, head_text, http11, sent_headers, start_line, OutgoingKind, OutgoingView,
};
use crate::text::{
    all_digits, decimal, decimal_int, digit_char, digits_value, find_char, is_ws, lower, pad2,
    join, parse_i64, trim, trim_end, trim_start, words,
};

verus! {

/// Encoding text piece by piece encodes it whole.
proof fn lemma_encode_concat(a: Seq<char>, b: Seq<char>)
    ensures
        encode_utf8(a + b) == encode_utf8(a) + encode_utf8(b),
    decreases a.len(),
{
    if a.len() == 0 {
        assert(a + b =~= b);
        assert(encode_utf8(a) + encode_utf8(b) =~= encode_utf8(b));
    } else {
        assert((a + b).drop_first() =~= a.drop_first() + b);
        lemma_encode_concat(a.drop_first(), b);
        assert((a + b)[0] == a[0]);
        assert(encode_utf8(a + b) =~= encode_utf8(a) + encode_utf8(b));
    }
}

/// An ASCII character is encoded as its own byte; every byte of any other
/// character is at least 0x80.
proof fn lemma_scalar_bytes(c: char)
    ensures
        (c as u32) < 0x80 ==> encode_scalar(c as u32) == seq![(c as u32) as u8],
        (c as u32) >= 0x80 ==> encode_scalar(c as u32).len() >= 2 && forall|i: int|
            0 <= i < encode_scalar(c as u32).len() ==> #[trigger] encode_scalar(c as u32)[i] >= 0x80,
{
    let v = c as u32;
    if v < 0x80 {
        assert(leading_byte_width_1(v) == v as u8) by (bit_vector)
            requires
                v < 0x80,
        ;
    } else {
        assert(last_continuation_byte(v) >= 0x80) by (bit_vector);
        assert(second_last_continuation_byte(v) >= 0x80) by (bit_vector);
        assert(third_last_continuation_byte(v) >= 0x80) by (bit_vector);
        assert(leading_byte_width_2(v) >= 0x80) by (bit_vector);
        assert(leading_byte_width_3(v) >= 0x80) by (bit_vector);
        assert(leading_byte_width_4(v) >= 0x80) by (bit_vector);
    }
}

/// Whether an empty line (CR LF CR LF) starts at position `i` of a text.
pub open spec fn blank_chars_at(t: Seq<char>, i: int) -> bool {
    &&& 0 <= i
    &&& i + 4 <= t.len()
    &&& t[i] == '\r'
    &&& t[i + 1] == '\n'
    &&& t[i + 2] == '\r'
    &&& t[i + 3] == '\n'
}

/// When the encoding of a text starts with an ASCII byte, the text starts
/// with the character of that byte, encoded alone.
proof fn lemma_ascii_front(s: Seq<char>)
    requires
        encode_utf8(s).len() > 0,
        encode_utf8(s)[0] < 0x80,
    ensures
        s.len() > 0,
        s[0] as u32 == encode_utf8(s)[0] as u32,
        encode_utf8(s) == seq![encode_utf8(s)[0]] + encode_utf8(s.drop_first()),
{
    if s.len() == 0 {
        assert(encode_utf8(s).len() == 0);
    }
    lemma_scalar_bytes(s[0]);
    assert(encode_utf8(s)[0] == encode_scalar(s[0] as u32)[0]);
}

/// Two characters with the same code are the same character.
proof fn lemma_same_char(a: char, b: char)
    requires
        a as u32 == b as u32,
    ensures
        a == b,
{
    char_u32_cast(a, a as u32);
    char_u32_cast(b, b as u32);
}

/// An empty line in the bytes of a text is one in the text, at the position
/// whose characters encode to the bytes before it.
proof fn lemma_blank_bytes(t: Seq<char>, p: int)
    requires
        blank_line_at(encode_utf8(t), p),
    ensures
        exists|i: int| blank_chars_at(t, i) && #[trigger] encode_utf8(t.take(i)).len() == p,
    decreases t.len(),
{
    let e = encode_utf8(t);
    if t.len() == 0 {
        assert(e.len() == 0);
    }
    let e0 = encode_scalar(t[0] as u32);
    let rest = t.drop_first();
    assert(e == e0 + encode_utf8(rest));
    lemma_scalar_bytes(t[0]);
    if p >= e0.len() {
        let q = p - e0.len();
        let er = encode_utf8(rest);
        assert(e[p] == er[q] && e[p + 1] == er[q + 1] && e[p + 2] == er[q + 2] && e[p + 3] == er[q
            + 3]);
        assert(blank_line_at(er, q));
        lemma_blank_bytes(rest, q);
        let i = choose|i: int| blank_chars_at(rest, i) && #[trigger] encode_utf8(rest.take(i)).len() == q;
        let ti = t.take(i + 1);
        assert(ti.drop_first() =~= rest.take(i));
        assert(ti[0] == t[0]);
        assert(encode_utf8(ti) == e0 + encode_utf8(rest.take(i)));
        assert(t[i + 1] == rest[i] && t[i + 2] == rest[i + 1] && t[i + 3] == rest[i + 2] && t[i + 4]
            == rest[i + 3]);
        assert(blank_chars_at(t, i + 1));
    } else {
        assert(e[p] == e0[p]);
        assert((t[0] as u32) < 0x80);
        assert(p == 0);
        let r1 = rest;
        assert(encode_utf8(r1)[0] == e[1]);
        lemma_ascii_front(r1);
        let r2 = r1.drop_first();
        assert(encode_utf8(r2)[0] == e[2]);
        lemma_ascii_front(r2);
        let r3 = r2.drop_first();
        assert(encode_utf8(r3)[0] == e[3]);
        lemma_ascii_front(r3);
        assert(t[0] as u32 == 13);
        lemma_same_char(t[0], '\r');
        lemma_same_char(r1[0], '\n');
        lemma_same_char(r2[0], '\r');
        lemma_same_char(r3[0], '\n');
        assert(t[1] == r1[0] && t[2] == r2[0] && t[3] == r3[0]);
        assert(t.take(0) =~= Seq::<char>::empty());
        assert(encode_utf8(t.take(0)).len() == 0);
        assert(blank_chars_at(t, 0));
    }
}

proof fn lemma_trim_start_len(s: Seq<char>)
    ensures
        trim_start(s).len() <= s.len(),
    decreases s.len(),
{
    if s.len() > 0 && is_ws(s[0]) {
        lemma_trim_start_len(s.drop_first());
    }
}

proof fn lemma_trim_end_len(s: Seq<char>)
    ensures
        trim_end(s).len() <= s.len(),
    decreases s.len(),
{
    if s.len() > 0 && is_ws(s.last()) {
        lemma_trim_end_len(s.drop_last());
    }
}

/// A text that trimming leaves as it is does not start with whitespace.
proof fn lemma_trimmed_front(s: Seq<char>)
    requires
        s.len() > 0,
        trim(s) == s,
    ensures
        !is_ws(s[0]),
{
    if is_ws(s[0]) {
        lemma_trim_start_len(s.drop_first());
        lemma_trim_end_len(trim_start(s));
    }
}

/// The line of a header that reads back as itself does not start with CR.
proof fn lemma_line_front(h: HeaderText)
    requires
        writable(h),
    ensures
        header_line(h).len() > 0,
        header_line(h)[0] != '\r',
{
    if h.0.len() > 0 {
        lemma_trimmed_front(h.0);
        assert(header_line(h)[0] == h.0[0]);
    } else {
        assert(header_line(h)[0] == ':');
    }
}

/// Where an empty line can start in a line, a line break and what follows:
/// right after the line when what follows starts with a line break, or
/// within what follows.
proof fn lemma_blank_after_line(a: Seq<char>, r: Seq<char>, i: int)
    requires
        no_crlf(a),
        blank_chars_at(a + crlf_text() + r, i),
    ensures
        (i == a.len() && r.len() >= 2 && r[0] == '\r' && r[1] == '\n') || (i >= a.len() + 2
            && blank_chars_at(r, i - a.len() - 2)),
{
    let t = a + crlf_text() + r;
    let n = a.len() as int;
    if i + 1 < n {
        assert(t[i] == a[i] && t[i + 1] == a[i + 1]);
        assert(!(a[i] == '\r' && a[i + 1] == '\n'));
    } else if i + 1 == n {
        assert(t[i + 1] == '\r');
    } else if i == n {
        assert(t[i + 2] == r[0] && t[i + 3] == r[1]);
    } else if i == n + 1 {
        assert(t[i] == '\n');
    } else {
        let j = i - n - 2;
        assert(t[i] == r[j] && t[i + 1] == r[j + 1] && t[i + 2] == r[j + 2] && t[i + 3] == r[j + 3]);
    }
}

/// The only empty line in a header block followed by a line break is the
/// one that the last line break ends.
proof fn lemma_block_blank(hs: Seq<HeaderText>, j: int)
    requires
        forall|k: int| 0 <= k < hs.len() ==> writable(#[trigger] hs[k]),
        blank_chars_at(header_block(hs) + crlf_text(), j),
    ensures
        j == header_block(hs).len() - 2,
    decreases hs.len(),
{
    if hs.len() == 0 {
        assert(header_block(hs) + crlf_text() =~= crlf_text());
    } else {
        let rest = hs.drop_first();
        let line = header_line(hs[0]);
        assert(forall|k: int| 0 <= k < rest.len() ==> writable(#[trigger] rest[k])) by {
            assert forall|k: int| 0 <= k < rest.len() implies writable(#[trigger] rest[k]) by {
                assert(rest[k] == hs[k + 1]);
            }
        }
        lemma_block_front(hs);
        lemma_line_no_crlf(hs[0]);
        let r = header_block(rest) + crlf_text();
        assert(header_block(hs) + crlf_text() =~= line + crlf_text() + r);
        lemma_blank_after_line(line, r, j);
        if j == line.len() && r.len() >= 2 && r[0] == '\r' && r[1] == '\n' {
            if rest.len() > 0 {
                lemma_block_front(rest);
                lemma_line_front(rest[0]);
                assert(r[0] == header_line(rest[0])[0]);
            } else {
                assert(header_block(rest).len() == 0);
            }
        } else {
            lemma_block_blank(rest, j - line.len() - 2);
        }
    }
}

/// The text of a head: start line, line break, header block, line break.
pub open spec fn head_chars(start: Seq<char>, hs: Seq<HeaderText>) -> Seq<char> {
    start + crlf_text() + header_block(hs) + crlf_text()
}

/// A written head has exactly one empty line: the one that ends it.
proof fn lemma_head_blank(start: Seq<char>, hs: Seq<HeaderText>)
    requires
        no_crlf(start),
        forall|k: int| 0 <= k < hs.len() ==> writable(#[trigger] hs[k]),
    ensures
        blank_chars_at(head_chars(start, hs), head_chars(start, hs).len() - 4),
        forall|i: int|
            #[trigger] blank_chars_at(head_chars(start, hs), i) ==> i == head_chars(start, hs).len()
                - 4,
{
    let t = head_chars(start, hs);
    let r = header_block(hs) + crlf_text();
    assert(t =~= start + crlf_text() + r);
    let n = t.len() as int;
    if hs.len() == 0 {
        assert(header_block(hs).len() == 0);
        assert(t[n - 4] == '\r' && t[n - 3] == '\n' && t[n - 2] == '\r' && t[n - 1] == '\n');
    } else {
        let b = header_block(hs);
        assert(b[b.len() - 2] == '\r' && b[b.len() - 1] == '\n');
        assert(t[n - 4] == b[b.len() - 2] && t[n - 3] == b[b.len() - 1]);
        assert(t[n - 2] == '\r' && t[n - 1] == '\n');
    }
    assert forall|i: int| #[trigger] blank_chars_at(t, i) implies i == n - 4 by {
        lemma_blank_after_line(start, r, i);
        if i == start.len() && r.len() >= 2 && r[0] == '\r' && r[1] == '\n' {
            if hs.len() > 0 {
                lemma_block_front(hs);
                lemma_line_front(hs[0]);
                assert(r[0] == header_line(hs[0])[0]);
            } else {
                assert(header_block(hs).len() == 0);
            }
        } else {
            lemma_block_blank(hs, i - start.len() - 2);
        }
    }
}

/// A head written as bytes, and followed by any bytes, is read back whole:
/// the reader finds the head's start line and headers, and after them the
/// bytes that followed.
pub proof fn lemma_head_read_back(start: Seq<char>, hs: Seq<HeaderText>, body: Seq<u8>)
    requires
        no_crlf(start),
        forall|k: int| 0 <= k < hs.len() ==> writable(#[trigger] hs[k]),
    ensures
        head_taken(encode_utf8(head_chars(start, hs)) + body) == Some((start, hs, body)),
{
    let t = head_chars(start, hs);
    let e = encode_utf8(t);
    let b = e + body;
    let n = t.len() as int;
    lemma_head_blank(start, hs);
    let w = t.take(n - 4);
    let tail = t.skip(n - 4);
    assert(t =~= w + tail);
    lemma_encode_concat(w, tail);
    assert(tail =~= seq!['\r', '\n', '\r', '\n']);
    lemma_scalar_bytes('\r');
    lemma_scalar_bytes('\n');
    assert(encode_utf8(tail) =~= seq![13u8, 10u8, 13u8, 10u8]) by {
        reveal_with_fuel(encode_utf8, 5);
        assert(tail.drop_first().drop_first().drop_first().drop_first() =~= Seq::<char>::empty());
    }
    let l = e.len() as int;
    assert(encode_utf8(w).len() == l - 4);
    assert(b[l - 4] == 13u8 && b[l - 3] == 10u8 && b[l - 2] == 13u8 && b[l - 1] == 10u8);
    assert(blank_line_at(b, l - 4));
    assert forall|j: int| 0 <= j < l - 4 implies !#[trigger] blank_line_at(b, j) by {
        if blank_line_at(b, j) {
            assert(b[j] == e[j] && b[j + 1] == e[j + 1] && b[j + 2] == e[j + 2] && b[j + 3] == e[j
                + 3]);
            assert(blank_line_at(e, j));
            lemma_blank_bytes(t, j);
            let i = choose|i: int| blank_chars_at(t, i) && #[trigger] encode_utf8(t.take(i)).len() == j;
            assert(i == n - 4);
        }
    }
    lemma_head_end(b, l - 4);
    assert(b.take(l) =~= e);
    assert(b.skip(l) =~= body);
    encode_utf8_valid_utf8(t);
    encode_utf8_decode_utf8(t);
    lemma_head_round_trip(start, hs);
}


/// Whether a text holds no carriage return.
pub open spec fn no_cr(s: Seq<char>) -> bool {
    forall|i: int| 0 <= i < s.len() ==> s[i] != '\r'
}

proof fn lemma_no_cr_add(a: Seq<char>, b: Seq<char>)
    requires
        no_cr(a),
        no_cr(b),
    ensures
        no_cr(a + b),
{
    assert forall|i: int| 0 <= i < (a + b).len() implies (a + b)[i] != '\r' by {
        if i < a.len() {
            assert((a + b)[i] == a[i]);
        } else {
            assert((a + b)[i] == b[i - a.len()]);
        }
    }
}

proof fn lemma_decimal_no_cr(n: nat)
    ensures
        no_cr(decimal(n)),
    decreases n,
{
    assert(digit_char(n % 10) as u32 == n % 10 + 48);
    if n >= 10 {
        lemma_decimal_no_cr(n / 10);
    } else {
        assert(digit_char(n) as u32 == n + 48);
    }
}

proof fn lemma_pad2_no_cr(n: nat)
    ensures
        no_cr(pad2(n)),
{
    if n < 10 {
        assert(digit_char(n) as u32 == n + 48);
    } else {
        lemma_decimal_no_cr(n);
    }
}

/// The automatic `date` header reads back as itself once written.
proof fn lemma_date_writable(now: int)
    ensures
        writable((date_name(), http_date_text(now))),
{
    let t = http_date_text(now);
    let days = now / 86400;
    let sod = now % 86400;
    let date = crate::date::civil(days);
    let w = weekday_name(days % 7);
    let year = decimal_int(date.0);
    if date.0 < 0 {
        lemma_decimal_no_cr((-date.0) as nat);
        lemma_no_cr_add(seq!['-'], decimal((-date.0) as nat));
    } else {
        lemma_decimal_no_cr(date.0 as nat);
    }
    lemma_pad2_no_cr(date.2 as nat);
    lemma_pad2_no_cr((sod / 3600) as nat);
    lemma_pad2_no_cr(((sod % 3600) / 60) as nat);
    lemma_pad2_no_cr((sod % 60) as nat);
    let p1 = w + seq![',', ' '];
    lemma_no_cr_add(w, seq![',', ' ']);
    let p2 = p1 + pad2(date.2 as nat);
    lemma_no_cr_add(p1, pad2(date.2 as nat));
    let p3 = p2 + seq![' '];
    lemma_no_cr_add(p2, seq![' ']);
    let p4 = p3 + month_name(date.1);
    lemma_no_cr_add(p3, month_name(date.1));
    let p5 = p4 + seq![' '];
    lemma_no_cr_add(p4, seq![' ']);
    let p6 = p5 + year;
    lemma_no_cr_add(p5, year);
    let p7 = p6 + seq![' '];
    lemma_no_cr_add(p6, seq![' ']);
    let p8 = p7 + pad2((sod / 3600) as nat);
    lemma_no_cr_add(p7, pad2((sod / 3600) as nat));
    let p9 = p8 + seq![':'];
    lemma_no_cr_add(p8, seq![':']);
    let p10 = p9 + pad2(((sod % 3600) / 60) as nat);
    lemma_no_cr_add(p9, pad2(((sod % 3600) / 60) as nat));
    let p11 = p10 + seq![':'];
    lemma_no_cr_add(p10, seq![':']);
    let p12 = p11 + pad2((sod % 60) as nat);
    lemma_no_cr_add(p11, pad2((sod % 60) as nat));
    let p13 = p12 + seq![' ', 'G', 'M', 'T'];
    lemma_no_cr_add(p12, seq![' ', 'G', 'M', 'T']);
    assert(t == p13);
    assert(no_crlf(t));
    assert(t[0] == w[0]);
    assert(!is_ws(t[0]));
    assert(t.last() == 'T');
    assert(trim_start(t) == t);
    assert(trim_end(t) == t);
    let d = date_name();
    assert(no_crlf(d));
    assert(!(exists|i: int| 0 <= i < d.len() && d[i] == ':'));
    assert(find_char(d, ':') is None);
    assert(trim_start(d) == d);
    assert(trim_end(d) == d);
    assert(lower(d) =~= d);
}

/// What a peer reads from the bytes that flushing a message writes, and
/// whatever bytes come after them: the start line and the headers that were
/// sent, then the buffered body as it was written, and the later bytes.
pub proof fn lemma_sent_head_read_back(s: OutgoingView, now: int, body: Seq<u8>)
    requires
        no_crlf(start_line(s)),
        forall|k: int| 0 <= k < s.headers.len() ==> writable(#[trigger] s.headers[k]),
    ensures
        head_taken(flushed_bytes(s, now) + body) == Some(
            (start_line(s), sent_headers(s, now), s.pending + body),
        ),
{
    let hs = sent_headers(s, now);
    lemma_date_writable(now);
    assert forall|k: int| 0 <= k < hs.len() implies writable(#[trigger] hs[k]) by {
        if k < s.headers.len() {
            assert(hs[k] == s.headers[k]);
        }
    }
    let h = head_chars(start_line(s), hs);
    assert(crlf() =~= crlf_text());
    assert(head_text(s, now) =~= h);
    assert(flushed_bytes(s, now) + body =~= encode_utf8(h) + (s.pending + body));
    lemma_head_read_back(start_line(s), hs, s.pending + body);
}

/// Whether a text is one word: not empty, and without whitespace.
pub open spec fn one_word(w: Seq<char>) -> bool {
    w.len() > 0 && forall|i: int| 0 <= i < w.len() ==> !is_ws(#[trigger] w[i])
}

/// A word followed by nothing or by whitespace is the first word.
pub(crate) proof fn lemma_words_front(w: Seq<char>, rest: Seq<char>)
    requires
        one_word(w),
        rest.len() == 0 || is_ws(rest[0]),
    ensures
        words(w + rest) == seq![w] + words(rest),
    decreases w.len(),
{
    let s = w + rest;
    assert(s[0] == w[0]);
    assert(s.drop_first() =~= w.drop_first() + rest);
    if w.len() == 1 {
        assert(w.drop_first() + rest =~= rest);
        if s.len() >= 2 {
            assert(s[1] == rest[0]);
        }
        assert(seq![w[0]] =~= w);
    } else {
        let w1 = w.drop_first();
        assert(one_word(w1)) by {
            assert forall|i: int| 0 <= i < w1.len() implies !is_ws(#[trigger] w1[i]) by {
                assert(w1[i] == w[i + 1]);
            }
        }
        assert(s[1] == w[1]);
        lemma_words_front(w1, rest);
        assert(seq![w[0]] + w1 =~= w);
        assert(words(s) =~= seq![w] + words(rest));
    }
}

/// Whitespace in front of a text adds no word.
pub(crate) proof fn lemma_words_space(x: Seq<char>)
    ensures
        words(seq![' '] + x) == words(x),
{
    assert((seq![' '] + x).drop_first() =~= x);
}

/// The digits of a number written in decimal give the number back.
proof fn lemma_decimal_value(n: nat)
    ensures
        decimal(n).len() > 0,
        all_digits(decimal(n)),
        digits_value(decimal(n)) == n,
        one_word(decimal(n)),
        decimal(n)[0] != '-' && decimal(n)[0] != '+',
    decreases n,
{
    assert(digit_char(n % 10) as u32 == n % 10 + 48);
    if n >= 10 {
        lemma_decimal_value(n / 10);
        let d = decimal(n);
        assert(d.drop_last() =~= decimal(n / 10));
        assert(d[0] == decimal(n / 10)[0]);
        assert(d.last() == digit_char(n % 10));
        assert(crate::text::digit_value(d.last()) == n % 10);
        assert(digits_value(d) == digits_value(decimal(n / 10)) * 10 + n % 10);
        assert((n / 10) * 10 + n % 10 == n) by (nonlinear_arith);
    } else {
        assert(digit_char(n) as u32 == n + 48);
        assert(decimal(n).drop_last() =~= Seq::<char>::empty());
        assert(crate::text::digit_value(decimal(n).last()) == n);
        assert(digits_value(decimal(n).drop_last()) == 0);
        assert(digits_value(decimal(n)) == n);
    }
}

/// An integer written in decimal is read back by `parse_i64`.
pub(crate) proof fn lemma_decimal_int_parse(c: i64)
    ensures
        parse_i64(decimal_int(c as int)) == Some(c),
        one_word(decimal_int(c as int)),
{
    if c < 0 {
        let m = (-(c as int)) as nat;
        lemma_decimal_value(m);
        let s = decimal_int(c as int);
        assert(s.drop_first() =~= decimal(m));
        assert(one_word(s)) by {
            assert forall|i: int| 0 <= i < s.len() implies !is_ws(#[trigger] s[i]) by {
                if i > 0 {
                    assert(s[i] == decimal(m)[i - 1]);
                }
            }
        }
    } else {
        lemma_decimal_value(c as nat);
    }
}

/// A word holds no carriage return.
proof fn lemma_word_no_cr(w: Seq<char>)
    requires
        one_word(w),
    ensures
        no_cr(w),
{
    assert forall|i: int| 0 <= i < w.len() implies w[i] != '\r' by {
        assert(!is_ws(w[i]));
    }
}

/// `HTTP/1.1` is one word, alone in its text.
proof fn lemma_version_word()
    ensures
        one_word(http11()),
        words(http11()) == seq![http11()],
{
    let v = http11();
    assert(one_word(v));
    lemma_words_front(v, Seq::empty());
    assert(v + Seq::<char>::empty() =~= v);
    assert(words(Seq::<char>::empty()) == Seq::<Seq<char>>::empty());
    assert(seq![v] + Seq::<Seq<char>>::empty() =~= seq![v]);
}

/// The words of a request line: method, target and `HTTP/1.1`.
proof fn lemma_request_line(s: OutgoingView)
    requires
        s.kind == OutgoingKind::Request,
        one_word(s.method),
        one_word(s.path),
    ensures
        no_crlf(start_line(s)),
        words(start_line(s)) == seq![s.method, s.path, http11()],
{
    let v = http11();
    let sp = seq![' '];
    let start = start_line(s);
    lemma_version_word();
    lemma_word_no_cr(s.method);
    lemma_word_no_cr(s.path);
    lemma_word_no_cr(v);
    let tail2 = sp + v;
    let tail1 = s.path + tail2;
    let tail0 = sp + tail1;
    assert(start =~= s.method + tail0);
    lemma_no_cr_add(sp, v);
    lemma_no_cr_add(s.path, tail2);
    lemma_no_cr_add(sp, tail1);
    lemma_no_cr_add(s.method, tail0);
    lemma_words_space(v);
    lemma_words_front(s.path, tail2);
    lemma_words_space(tail1);
    lemma_words_front(s.method, tail0);
    assert(words(start) =~= seq![s.method, s.path, v]);
}

/// The words of a status line: `HTTP/1.1`, the status code, and the words
/// of the status message.
proof fn lemma_status_line(s: OutgoingView)
    requires
        s.kind == OutgoingKind::Response,
        no_crlf(s.status_message),
    ensures
        no_crlf(start_line(s)),
        words(start_line(s)) == seq![http11(), decimal_int(s.status_code as int)] + words(
            s.status_message,
        ),
{
    let v = http11();
    let sp = seq![' '];
    let code = decimal_int(s.status_code as int);
    let m = s.status_message;
    let start = start_line(s);
    lemma_version_word();
    lemma_decimal_int_parse(s.status_code);
    lemma_word_no_cr(code);
    lemma_word_no_cr(v);
    let tail2 = sp + m;
    let tail1 = code + tail2;
    let tail0 = sp + tail1;
    assert(start =~= v + tail0);
    let n = (v.len() + 1 + code.len() + 1) as int;
    lemma_no_cr_add(sp, code);
    lemma_no_cr_add(v, sp + code);
    lemma_no_cr_add(v + (sp + code), sp);
    assert(v + (sp + code) + sp =~= start.take(n));
    assert(start.skip(n) =~= m);
    assert forall|i: int| 0 <= i < start.len() - 1 implies !(#[trigger] start[i] == '\r' && start[i
        + 1] == '\n') by {
        if i < n - 1 {
            assert(start[i] == start.take(n)[i]);
        } else if i == n - 1 {
            assert(start[i] == ' ');
        } else {
            assert(start[i] == m[i - n] && start[i + 1] == m[i - n + 1]);
        }
    }
    lemma_words_space(m);
    lemma_words_front(code, tail2);
    lemma_words_space(tail1);
    lemma_words_front(v, tail0);
    assert(words(start) =~= seq![v, code] + words(m));
}

/// The request that a server reads from a request line that a client wrote.
proof fn lemma_request_of_line(s: OutgoingView, hs: Seq<HeaderText>)
    requires
        s.kind == OutgoingKind::Request,
        one_word(s.method),
        one_word(s.path),
    ensures
        no_crlf(start_line(s)),
        request_of(start_line(s), hs) == (IncomingView {
            method: s.method,
            url: s.path,
            http_version: seq!['1', '.', '1'],
            ..message_of(hs)
        }),
{
    lemma_request_line(s);
    let v = http11();
    assert(v.take(5) =~= crate::incoming::http_slash());
    assert(v.skip(5) =~= seq!['1', '.', '1']);
}

/// The response that a client reads from a status line that a server wrote.
proof fn lemma_response_of_line(s: OutgoingView, hs: Seq<HeaderText>)
    requires
        s.kind == OutgoingKind::Response,
        no_crlf(s.status_message),
    ensures
        no_crlf(start_line(s)),
        response_of(start_line(s), hs) == (IncomingView {
            status_code: Some(s.status_code),
            status_message: join(words(s.status_message), seq![' ']),
            http_version: seq!['1', '.', '1'],
            ..message_of(hs)
        }),
{
    lemma_status_line(s);
    lemma_decimal_int_parse(s.status_code);
    let ws = words(start_line(s));
    let m = words(s.status_message);
    assert(ws[1] == decimal_int(s.status_code as int));
    if ws.len() > 2 {
        assert(ws.skip(2) =~= m);
    } else {
        assert(m =~= Seq::<Seq<char>>::empty());
    }
    let v = http11();
    assert(ws[0] == v);
    assert(v.take(5) =~= crate::incoming::http_slash());
    assert(v.skip(5) =~= seq!['1', '.', '1']);
}

/// A request that a client writes is read by the server as it was written:
/// its method, its target and HTTP/1.1, the headers that were sent, and
/// after them the buffered body as it was written and the later bytes.
pub proof fn lemma_request_received(s: OutgoingView, now: int, body: Seq<u8>)
    requires
        s.kind == OutgoingKind::Request,
        one_word(s.method),
        one_word(s.path),
        forall|k: int| 0 <= k < s.headers.len() ==> writable(#[trigger] s.headers[k]),
    ensures
        head_taken(flushed_bytes(s, now) + body) matches Some(t) && request_of(t.0, t.1)
            == (IncomingView {
            method: s.method,
            url: s.path,
            http_version: seq!['1', '.', '1'],
            ..message_of(sent_headers(s, now))
        }) && t.2 == s.pending + body,
{
    lemma_request_of_line(s, sent_headers(s, now));
    lemma_sent_head_read_back(s, now, body);
}

/// A response that a server writes is read by the client as it was written:
/// its status code, the words of its status message joined by single
/// spaces, HTTP/1.1, the headers that were sent, and after them the
/// buffered body as it was written and the later bytes.
pub proof fn lemma_response_received(s: OutgoingView, now: int, body: Seq<u8>)
    requires
        s.kind == OutgoingKind::Response,
        no_crlf(s.status_message),
        forall|k: int| 0 <= k < s.headers.len() ==> writable(#[trigger] s.headers[k]),
    ensures
        head_taken(flushed_bytes(s, now) + body) matches Some(t) && response_of(t.0, t.1)
            == (IncomingView {
            status_code: Some(s.status_code),
            status_message: join(words(s.status_message), seq![' ']),
            http_version: seq!['1', '.', '1'],
            ..message_of(sent_headers(s, now))
        }) && t.2 == s.pending + body,
{
    lemma_response_of_line(s, sent_headers(s, now));
    lemma_sent_head_read_back(s, now, body);
}

} // verus!
