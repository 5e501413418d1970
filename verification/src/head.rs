//! HTTP/1.1 message heads: where a head ends in a byte stream, how its lines
//! split into a start line and named headers, and how headers are looked up,
//! written back and grouped by name.
use vstd::prelude::*;
use vstd::utf8::*;

use crate::text::{
    chars_of, eq_ignore_ascii_case, eq_ignore_case, find, find_char, lemma_find_char,
    lemma_split_crlf_len, lower, slice_of, split_crlf, split_lines, string_of, texts_view, to_lower,
    trim, trim_chars, trim_start,
};

verus! {

/// A header as plain text: its name and its value.
pub type HeaderText = (Seq<char>, Seq<char>);

/// The text of each header of a list.
pub open spec fn pairs_view(v: Seq<(String, String)>) -> Seq<HeaderText> {
    v.map_values(|p: (String, String)| (p.0@, p.1@))
}

/// The text of each string of a list.
pub open spec fn strings_view(v: Seq<String>) -> Seq<Seq<char>> {
    v.map_values(|s: String| s@)
}

/// Whether an empty line (CR LF CR LF) starts at `i`.
pub open spec fn blank_line_at(b: Seq<u8>, i: int) -> bool {
    &&& 0 <= i
    &&& i + 4 <= b.len()
    &&& b[i] == 13u8
    &&& b[i + 1] == 10u8
    &&& b[i + 2] == 13u8
    &&& b[i + 3] == 10u8
}

/// The offset just past the first CR LF CR LF of `b`: where the body starts.
pub open spec fn head_end(b: Seq<u8>) -> Option<int> {
    if exists|i: int| #[trigger] blank_line_at(b, i) {
        Some(
            (choose|i: int| #[trigger] blank_line_at(b, i) && forall|j: int| 0 <= j < i ==> !#[trigger] blank_line_at(b, j))
                + 4,
        )
    } else {
        None
    }
}

pub(crate) proof fn lemma_head_end(b: Seq<u8>, i: int)
    requires
        blank_line_at(b, i),
        forall|j: int| 0 <= j < i ==> !#[trigger] blank_line_at(b, j),
    ensures
        head_end(b) == Some(i + 4),
{
    let k = choose|k: int| #[trigger] blank_line_at(b, k) && forall|j: int| 0 <= j < k ==> !#[trigger] blank_line_at(b, j);
    assert(blank_line_at(b, k) && forall|j: int| 0 <= j < k ==> !#[trigger] blank_line_at(b, j));
    if k < i {
        assert(!blank_line_at(b, k));
    }
    if i < k {
        assert(!blank_line_at(b, i));
    }
}

/// Finds the end of a header block (`\r\n\r\n`), returning the body offset.
pub fn header_end(bytes: &[u8]) -> (r: Option<usize>)
    ensures
        r matches Some(o) ==> 4 <= o <= bytes@.len() && head_end(bytes@) == Some(o as int),
        r is None ==> head_end(bytes@) is None,
{
    let n = bytes.len();
    let mut i: usize = 0;
    while n >= 4 && i <= n - 4
        invariant
            n == bytes@.len(),
            forall|j: int| 0 <= j < i ==> !#[trigger] blank_line_at(bytes@, j),
        decreases n - i,
    {
        if bytes[i] == 13 && bytes[i + 1] == 10 && bytes[i + 2] == 13 && bytes[i + 3] == 10 {
            proof {
                lemma_head_end(bytes@, i as int);
            }
            return Some(i + 4);
        }
        i = i + 1;
    }
    assert forall|j: int| #[trigger] blank_line_at(bytes@, j) implies false by {
        if j >= i {
            assert(j + 4 > n);
        }
    }
    None
}

/// The header that one line of a head holds: the name before the first `:`,
/// trimmed and in lower case, and the value after it, trimmed.
pub open spec fn header_of_line(line: Seq<char>) -> Option<HeaderText> {
    match find_char(line, ':') {
        Some(k) => Some((lower(trim(line.take(k))), trim(line.skip(k + 1)))),
        None => None,
    }
}

/// The headers of a sequence of lines; a line without `:` holds none.
pub open spec fn headers_of_lines(lines: Seq<Seq<char>>) -> Seq<HeaderText>
    decreases lines.len(),
{
    if lines.len() == 0 {
        Seq::empty()
    } else {
        let before = headers_of_lines(lines.drop_last());
        match header_of_line(lines.last()) {
            Some(h) => before.push(h),
            None => before,
        }
    }
}

/// A head: its first line, and the headers of the lines after it.
pub open spec fn head_of(text: Seq<char>) -> (Seq<char>, Seq<HeaderText>) {
    let lines = split_crlf(text);
    (lines[0], headers_of_lines(lines.drop_first()))
}

fn line_header(line: &[char]) -> (r: Option<(String, String)>)
    ensures
        r matches Some(p) ==> header_of_line(line@) == Some((p.0@, p.1@)),
        r is None ==> header_of_line(line@) is None,
{
    let n = line.len();
    match find(line, ':') {
        Some(k) => {
            let name = slice_of(line, 0, k);
            let value = slice_of(line, k + 1, n);
            assert(name@ =~= line@.take(k as int));
            assert(value@ =~= line@.skip(k + 1));
            let name = to_lower(trim_chars(name.as_slice()).as_slice());
            let value = trim_chars(value.as_slice());
            Some((string_of(name.as_slice()), string_of(value.as_slice())))
        },
        None => None,
    }
}

/// Splits a head into its start line and its headers.
pub fn parse_head(head: &str) -> (r: (String, Vec<(String, String)>))
    ensures
        (r.0@, pairs_view(r.1@)) == head_of(head@),
{
    let cs = chars_of(head);
    let lines = split_lines(cs.as_slice());
    proof {
        lemma_split_crlf_len(cs@);
    }
    let start = string_of(lines[0].as_slice());
    let ghost all = texts_view(lines@);
    let mut headers: Vec<(String, String)> = Vec::new();
    let mut i: usize = 1;
    assert(all.drop_first().take(0) =~= Seq::<Seq<char>>::empty());
    while i < lines.len()
        invariant
            1 <= i <= lines@.len(),
            all == texts_view(lines@),
            pairs_view(headers@) == headers_of_lines(all.drop_first().take(i - 1)),
        decreases lines@.len() - i,
    {
        let h = line_header(lines[i].as_slice());
        proof {
            let rest = all.drop_first();
            assert(rest.take(i as int).drop_last() =~= rest.take(i - 1));
            assert(rest.take(i as int).last() == lines@[i as int]@);
        }
        match h {
            Some(p) => {
                headers.push(p);
                assert(pairs_view(headers@) =~= headers_of_lines(
                    all.drop_first().take(i as int),
                ));
            },
            None => {},
        }
        i = i + 1;
    }
    assert(all.drop_first().take(i - 1) =~= all.drop_first());
    (start, headers)
}

/// The index of the first header whose name equals `name` when ASCII case is
/// ignored.
pub open spec fn find_header(hs: Seq<HeaderText>, name: Seq<char>) -> Option<int> {
    if exists|i: int| 0 <= i < hs.len() && #[trigger] eq_ignore_case(hs[i].0, name) {
        Some(
            choose|i: int|
                0 <= i < hs.len() && #[trigger] eq_ignore_case(hs[i].0, name) && forall|j: int|
                    0 <= j < i ==> !#[trigger] eq_ignore_case(hs[j].0, name),
        )
    } else {
        None
    }
}

proof fn lemma_find_header(hs: Seq<HeaderText>, name: Seq<char>, i: int)
    requires
        0 <= i < hs.len(),
        eq_ignore_case(hs[i].0, name),
        forall|j: int| 0 <= j < i ==> !#[trigger] eq_ignore_case(hs[j].0, name),
    ensures
        find_header(hs, name) == Some(i),
{
    let k = choose|k: int|
        0 <= k < hs.len() && #[trigger] eq_ignore_case(hs[k].0, name) && forall|j: int|
            0 <= j < k ==> !#[trigger] eq_ignore_case(hs[j].0, name);
    assert(0 <= k < hs.len() && eq_ignore_case(hs[k].0, name) && forall|j: int|
        0 <= j < k ==> !#[trigger] eq_ignore_case(hs[j].0, name));
    if k < i {
        assert(!eq_ignore_case(hs[k].0, name));
    }
    if i < k {
        assert(!eq_ignore_case(hs[i].0, name));
    }
}

/// The value of the first header named `name`, ASCII case ignored.
pub open spec fn header_lookup(hs: Seq<HeaderText>, name: Seq<char>) -> Option<Seq<char>> {
    match find_header(hs, name) {
        Some(i) => Some(hs[i].1),
        None => None,
    }
}

/// The value of the first header whose name matches `name` regardless of
/// ASCII case.
pub fn header_value(headers: &[(String, String)], name: &str) -> (r: Option<String>)
    ensures
        r matches Some(v) ==> header_lookup(pairs_view(headers@), name@) == Some(v@),
        r is None ==> header_lookup(pairs_view(headers@), name@) is None,
{
    let ghost hs = pairs_view(headers@);
    let wanted = chars_of(name);
    let mut i: usize = 0;
    while i < headers.len()
        invariant
            i <= headers@.len(),
            hs == pairs_view(headers@),
            wanted@ == name@,
            forall|j: int| 0 <= j < i ==> !#[trigger] eq_ignore_case(hs[j].0, name@),
        decreases headers@.len() - i,
    {
        let key = chars_of(headers[i].0.as_str());
        if eq_ignore_ascii_case(key.as_slice(), wanted.as_slice()) {
            proof {
                lemma_find_header(hs, name@, i as int);
            }
            return Some(headers[i].1.clone());
        }
        i = i + 1;
    }
    None
}

/// The text of a header block: `name: value` and CR LF for each header.
pub open spec fn header_block(hs: Seq<HeaderText>) -> Seq<char>
    decreases hs.len(),
{
    if hs.len() == 0 {
        Seq::empty()
    } else {
        header_block(hs.drop_last()) + hs.last().0 + seq![':', ' '] + hs.last().1 + seq![
            '\r',
            '\n',
        ]
    }
}

/// Writes each header as a `name: value` line.
pub fn header_lines(headers: &[(String, String)]) -> (r: Vec<char>)
    ensures
        r@ == header_block(pairs_view(headers@)),
{
    let ghost hs = pairs_view(headers@);
    let mut r: Vec<char> = Vec::new();
    let mut i: usize = 0;
    while i < headers.len()
        invariant
            i <= headers@.len(),
            hs == pairs_view(headers@),
            r@ == header_block(hs.take(i as int)),
        decreases headers@.len() - i,
    {
        let name = chars_of(headers[i].0.as_str());
        let value = chars_of(headers[i].1.as_str());
        r.extend_from_slice(name.as_slice());
        r.push(':');
        r.push(' ');
        r.extend_from_slice(value.as_slice());
        r.push('\r');
        r.push('\n');
        proof {
            assert(hs.take(i + 1).drop_last() =~= hs.take(i as int));
            assert(hs.take(i + 1).last() == hs[i as int]);
        }
        i = i + 1;
        assert(r@ =~= header_block(hs.take(i as int)));
    }
    assert(hs.take(i as int) =~= hs);
    r
}

/// Names and values in turn, as `rawHeaders` lists them.
pub open spec fn flat_headers(hs: Seq<HeaderText>) -> Seq<Seq<char>>
    decreases hs.len(),
{
    if hs.len() == 0 {
        Seq::empty()
    } else {
        flat_headers(hs.drop_last()).push(hs.last().0).push(hs.last().1)
    }
}

/// The raw header list: each name followed by its value.
pub fn incoming_raw_headers(headers: &[(String, String)]) -> (r: Vec<String>)
    ensures
        strings_view(r@) == flat_headers(pairs_view(headers@)),
{
    let ghost hs = pairs_view(headers@);
    let mut r: Vec<String> = Vec::new();
    let mut i: usize = 0;
    while i < headers.len()
        invariant
            i <= headers@.len(),
            hs == pairs_view(headers@),
            strings_view(r@) == flat_headers(hs.take(i as int)),
        decreases headers@.len() - i,
    {
        r.push(headers[i].0.clone());
        r.push(headers[i].1.clone());
        proof {
            assert(hs.take(i + 1).drop_last() =~= hs.take(i as int));
            assert(hs.take(i + 1).last() == hs[i as int]);
        }
        i = i + 1;
        assert(strings_view(r@) =~= flat_headers(hs.take(i as int)));
    }
    assert(hs.take(i as int) =~= hs);
    r
}

/// A name with the values given for it, in order.
pub type GroupText = (Seq<char>, Seq<Seq<char>>);

/// The index of the group named `name`.
pub open spec fn find_group(g: Seq<GroupText>, name: Seq<char>) -> Option<int> {
    if exists|i: int| 0 <= i < g.len() && #[trigger] g[i].0 == name {
        Some(
            choose|i: int|
                0 <= i < g.len() && #[trigger] g[i].0 == name && forall|j: int|
                    0 <= j < i ==> #[trigger] g[j].0 != name,
        )
    } else {
        None
    }
}

proof fn lemma_find_group(g: Seq<GroupText>, name: Seq<char>, i: int)
    requires
        0 <= i < g.len(),
        g[i].0 == name,
        forall|j: int| 0 <= j < i ==> #[trigger] g[j].0 != name,
    ensures
        find_group(g, name) == Some(i),
{
    let k = choose|k: int|
        0 <= k < g.len() && #[trigger] g[k].0 == name && forall|j: int|
            0 <= j < k ==> #[trigger] g[j].0 != name;
    assert(0 <= k < g.len() && g[k].0 == name && forall|j: int|
        0 <= j < k ==> #[trigger] g[j].0 != name);
}

/// One more header added to its group, or to a new group at the end.
pub open spec fn group_insert(g: Seq<GroupText>, h: HeaderText) -> Seq<GroupText> {
    match find_group(g, h.0) {
        Some(j) => g.update(j, (h.0, g[j].1.push(h.1))),
        None => g.push((h.0, seq![h.1])),
    }
}

/// The headers grouped by exact name, groups in the order in which their
/// names first occur.
pub open spec fn group_headers(hs: Seq<HeaderText>) -> Seq<GroupText>
    decreases hs.len(),
{
    if hs.len() == 0 {
        Seq::empty()
    } else {
        group_insert(group_headers(hs.drop_last()), hs.last())
    }
}

/// The value of a header in a header object: one string, or every value when
/// the name occurs more than once.
#[derive(Debug, PartialEq, Eq)]
pub enum HeaderValue {
    Single(String),
    Many(Vec<String>),
}

/// The values that a header value holds.
pub open spec fn header_values(v: HeaderValue) -> Seq<Seq<char>> {
    match v {
        HeaderValue::Single(s) => seq![s@],
        HeaderValue::Many(vs) => strings_view(vs@),
    }
}

/// The groups that a header object holds.
pub open spec fn object_view(o: Seq<(String, HeaderValue)>) -> Seq<GroupText> {
    o.map_values(|e: (String, HeaderValue)| (e.0@, header_values(e.1)))
}

/// Whether the object holds a single string exactly for the names given once.
pub open spec fn singles_exactly_once(o: Seq<(String, HeaderValue)>) -> bool {
    forall|i: int|
        0 <= i < o.len() ==> ((#[trigger] o[i]).1 is Single <==> header_values(o[i].1).len() == 1)
}

/// The headers as an object: for each name, in order of first occurrence,
/// its value alone, or all its values when it occurs more than once.
pub fn headers_object(headers: &[(String, String)]) -> (r: Vec<(String, HeaderValue)>)
    ensures
        object_view(r@) == group_headers(pairs_view(headers@)),
        singles_exactly_once(r@),
{
    let ghost hs = pairs_view(headers@);
    let mut names: Vec<String> = Vec::new();
    let mut values: Vec<Vec<String>> = Vec::new();
    let mut i: usize = 0;
    while i < headers.len()
        invariant
            i <= headers@.len(),
            hs == pairs_view(headers@),
            names@.len() == values@.len(),
            forall|k: int| 0 <= k < values@.len() ==> (#[trigger] values@[k])@.len() >= 1,
            group_headers(hs.take(i as int)) == Seq::new(
                names@.len(),
                |k: int| (names@[k]@, strings_view(values@[k]@)),
            ),
        decreases headers@.len() - i,
    {
        let ghost g = group_headers(hs.take(i as int));
        let name = &headers[i].0;
        let value = &headers[i].1;
        proof {
            assert(hs.take(i + 1).drop_last() =~= hs.take(i as int));
            assert(hs.take(i + 1).last() == hs[i as int]);
        }
        let mut j: usize = 0;
        let mut found = false;
        while !found && j < names.len()
            invariant
                j <= names@.len(),
                names@.len() == values@.len(),
                g.len() == names@.len(),
                forall|k: int| 0 <= k < g.len() ==> (#[trigger] g[k]).0 == names@[k]@,
                forall|k: int| 0 <= k < j ==> #[trigger] g[k].0 != name@,
                found ==> j < names@.len() && g[j as int].0 == name@,
            decreases names@.len() - j + (if found { 0int } else { 1int }),
        {
            if names[j] == *name {
                found = true;
            } else {
                j = j + 1;
            }
        }
        let ghost old_values = values@;
        let ghost old_names = names@;
        if found {
            proof {
                lemma_find_group(g, name@, j as int);
                assert(group_insert(g, (name@, value@)) == g.update(
                    j as int,
                    (name@, g[j as int].1.push(value@)),
                ));
            }
            let mut vs = values[j].clone();
            proof {
                assert(vs@ =~= old_values[j as int]@);
            }
            vs.push(value.clone());
            proof {
                assert(strings_view(vs@) =~= g[j as int].1.push(value@));
            }
            values.set(j, vs);
            proof {
                assert(group_insert(g, (name@, value@)) =~= Seq::new(
                    names@.len(),
                    |k: int| (names@[k]@, strings_view(values@[k]@)),
                ));
            }
        } else {
            proof {
                assert forall|k: int| 0 <= k < g.len() implies #[trigger] g[k].0 != name@ by {
                    assert(k < j);
                }
                assert(find_group(g, name@) is None);
            }
            names.push(name.clone());
            let mut vs: Vec<String> = Vec::new();
            vs.push(value.clone());
            values.push(vs);
            proof {
                assert(strings_view(values@[old_values.len() as int]@) =~= seq![value@]);
                assert(group_insert(g, (name@, value@)) =~= Seq::new(
                    names@.len(),
                    |k: int| (names@[k]@, strings_view(values@[k]@)),
                ));
            }
        }
        i = i + 1;
        proof {
            assert(hs[i - 1] == (name@, value@));
        }
    }
    assert(hs.take(i as int) =~= hs);
    let ghost g = group_headers(hs);
    let mut r: Vec<(String, HeaderValue)> = Vec::new();
    let mut k: usize = 0;
    while k < names.len()
        invariant
            k <= names@.len(),
            names@.len() == values@.len(),
            g.len() == names@.len(),
            forall|m: int| 0 <= m < values@.len() ==> (#[trigger] values@[m])@.len() >= 1,
            forall|m: int|
                0 <= m < g.len() ==> #[trigger] g[m] == (names@[m]@, strings_view(values@[m]@)),
            object_view(r@) == g.take(k as int),
            singles_exactly_once(r@),
        decreases names@.len() - k,
    {
        let vs = values[k].clone();
        proof {
            assert(vs@ =~= values@[k as int]@);
        }
        let v = if vs.len() == 1 {
            let only = vs[0].clone();
            proof {
                assert(seq![only@] =~= strings_view(vs@));
            }
            HeaderValue::Single(only)
        } else {
            HeaderValue::Many(vs)
        };
        proof {
            assert(header_values(v) == strings_view(values@[k as int]@));
            assert(v is Single <==> header_values(v).len() == 1);
        }
        let ghost old_r = r@;
        r.push((names[k].clone(), v));
        proof {
            assert(object_view(r@) =~= object_view(old_r).push(g[k as int]));
            assert(g.take(k + 1) =~= g.take(k as int).push(g[k as int]));
        }
        k = k + 1;
    }
    assert(g.take(k as int) =~= g);
    r
}

/// Names what `String::from_utf8_lossy` makes of a byte sequence.
pub uninterp spec fn utf8_lossy(bytes: Seq<u8>) -> Seq<char>;

/// `String::from_utf8_lossy`, made owned: the text that the bytes encode,
/// each invalid sequence replaced by U+FFFD. What the replacement gives for
/// invalid input is left to the name; of valid UTF-8 the contract says that
/// it is decoded as it stands.
#[verifier::external_body]
pub(crate) fn from_utf8_lossy(bytes: &[u8]) -> (r: String)
    ensures
        r@ == utf8_lossy(bytes@),
        valid_utf8(bytes@) ==> r@ == decode_utf8(bytes@),
{
    String::from_utf8_lossy(bytes).into_owned()
}

/// The text that bytes are read as: their decoding when they are valid
/// UTF-8, else what the lossy conversion makes of them.
pub open spec fn lossy_text(bytes: Seq<u8>) -> Seq<char> {
    if valid_utf8(bytes) {
        decode_utf8(bytes)
    } else {
        utf8_lossy(bytes)
    }
}

/// A head taken from a stream: start line, headers, and the bytes after it.
pub type TakenHead = (String, Vec<(String, String)>, Vec<u8>);

/// Incremental HTTP/1.1 head reader shared by both directions.
pub struct HeadReader {
    buffer: Vec<u8>,
}

impl View for HeadReader {
    type V = Seq<u8>;

    closed spec fn view(&self) -> Seq<u8> {
        self.buffer@
    }
}

/// What taking a head from `buffered` gives: nothing until an empty line has
/// arrived, then the head's start line and headers, decoded, and the rest.
pub open spec fn head_taken(buffered: Seq<u8>) -> Option<(Seq<char>, Seq<HeaderText>, Seq<u8>)> {
    match head_end(buffered) {
        Some(o) => {
            let (start, headers) = head_of(lossy_text(buffered.take(o)));
            Some((start, headers, buffered.skip(o)))
        },
        None => None,
    }
}

impl HeadReader {
    pub fn new() -> (r: HeadReader)
        ensures
            r@ == Seq::<u8>::empty(),
    {
        HeadReader { buffer: Vec::new() }
    }

    pub fn push(&mut self, bytes: &[u8])
        ensures
            final(self)@ == old(self)@ + bytes@,
    {
        self.buffer.extend_from_slice(bytes);
        assert(self.buffer@ =~= old(self)@ + bytes@);
    }

    /// Takes the head once the buffered bytes hold a whole one; the buffer is
    /// then emptied, and what followed the head is handed back.
    pub fn take_head(&mut self) -> (r: Option<TakenHead>)
        ensures
            r is None ==> head_taken(old(self)@) is None && final(self)@ == old(self)@,
            r matches Some(t) ==> head_taken(old(self)@) == Some(
                (t.0@, pairs_view(t.1@), t.2@),
            ) && final(self)@ == Seq::<u8>::empty(),
    {
        match header_end(self.buffer.as_slice()) {
            None => None,
            Some(offset) => {
                let taken = split_head(self.buffer.as_slice(), offset);
                self.buffer.clear();
                Some(taken)
            },
        }
    }
}

/// The head that ends at `offset`, parsed, and the bytes after it.
fn split_head(buffer: &[u8], offset: usize) -> (t: TakenHead)
    requires
        offset <= buffer@.len(),
    ensures
        (t.0@, pairs_view(t.1@)) == head_of(lossy_text(buffer@.take(offset as int))),
        t.2@ == buffer@.skip(offset as int),
{
    let head_bytes = slice_bytes(buffer, 0, offset);
    let head = from_utf8_lossy(head_bytes.as_slice());
    let rest = slice_bytes(buffer, offset, buffer.len());
    assert(head_bytes@ =~= buffer@.take(offset as int));
    assert(rest@ =~= buffer@.skip(offset as int));
    let (start, headers) = parse_head(head.as_str());
    (start, headers, rest)
}

/// The bytes of `s` from `from` up to `to`.
pub fn slice_bytes(s: &[u8], from: usize, to: usize) -> (r: Vec<u8>)
    requires
        from <= to <= s@.len(),
    ensures
        r@ == s@.subrange(from as int, to as int),
{
    let mut r: Vec<u8> = Vec::new();
    let mut k: usize = from;
    while k < to
        invariant
            from <= k <= to <= s@.len(),
            r@ == s@.subrange(from as int, k as int),
        decreases to - k,
    {
        r.push(s[k]);
        k = k + 1;
        assert(r@ =~= s@.subrange(from as int, k as int));
    }
    r
}

/// Whether no CR is directly followed by LF in `s`.
pub open spec fn no_crlf(s: Seq<char>) -> bool {
    forall|i: int| 0 <= i < s.len() - 1 ==> !(#[trigger] s[i] == '\r' && s[i + 1] == '\n')
}

/// The line that a header is written as.
pub open spec fn header_line(h: HeaderText) -> Seq<char> {
    h.0 + seq![':', ' '] + h.1
}

/// Whether a header reads back as itself once written: a lower-case name
/// without `:` and a value, neither holding a line break nor surrounding
/// whitespace.
pub open spec fn writable(h: HeaderText) -> bool {
    &&& no_crlf(h.0)
    &&& no_crlf(h.1)
    &&& find_char(h.0, ':') is None
    &&& trim(h.0) == h.0
    &&& lower(h.0) == h.0
    &&& trim(h.1) == h.1
}

pub open spec fn crlf_text() -> Seq<char> {
    seq!['\r', '\n']
}

proof fn lemma_split_after_line(a: Seq<char>, b: Seq<char>)
    requires
        no_crlf(a),
    ensures
        split_crlf(a + crlf_text() + b) == seq![a] + split_crlf(b),
    decreases a.len(),
{
    let s = a + crlf_text() + b;
    if a.len() == 0 {
        assert(a =~= Seq::<char>::empty());
        assert(s =~= crlf_text() + b);
        assert(s.skip(2) =~= b);
        assert(seq![Seq::<char>::empty()] + split_crlf(b) =~= seq![a] + split_crlf(b));
    } else {
        let a1 = a.drop_first();
        assert(no_crlf(a1)) by {
            assert forall|i: int| 0 <= i < a1.len() - 1 implies !(#[trigger] a1[i] == '\r' && a1[i
                + 1] == '\n') by {
                assert(a1[i] == a[i + 1] && a1[i + 1] == a[i + 2]);
            }
        }
        if a.len() >= 2 {
            assert(!(a[0] == '\r' && a[1] == '\n'));
        }
        assert(s.drop_first() =~= a1 + crlf_text() + b);
        lemma_split_after_line(a1, b);
        let rest = split_crlf(s.drop_first());
        assert(rest == seq![a1] + split_crlf(b));
        assert(seq![s[0]] + a1 =~= a);
        assert(glue_of(s[0], rest) =~= seq![a] + split_crlf(b));
    }
}

spec fn glue_of(c: char, rest: Seq<Seq<char>>) -> Seq<Seq<char>> {
    rest.update(0, seq![c] + rest[0])
}

/// The lines of a header block, without their line breaks.
pub open spec fn block_lines(hs: Seq<HeaderText>) -> Seq<Seq<char>> {
    hs.map_values(|h: HeaderText| header_line(h))
}

pub(crate) proof fn lemma_block_front(hs: Seq<HeaderText>)
    requires
        hs.len() > 0,
    ensures
        header_block(hs) == header_line(hs[0]) + crlf_text() + header_block(hs.drop_first()),
    decreases hs.len(),
{
    if hs.len() == 1 {
        assert(hs.drop_last() =~= Seq::<HeaderText>::empty());
        assert(hs.drop_first() =~= Seq::<HeaderText>::empty());
        assert(header_block(hs.drop_last()) == Seq::<char>::empty());
        assert(header_block(hs.drop_first()) == Seq::<char>::empty());
        assert(hs.last() == hs[0]);
        assert(header_block(hs) =~= header_line(hs[0]) + crlf_text() + header_block(hs.drop_first()));
    } else {
        lemma_block_front(hs.drop_last());
        assert(hs.drop_last().drop_first() =~= hs.drop_first().drop_last());
        assert(hs.drop_first().last() == hs.last());
        assert(header_block(hs) =~= header_line(hs[0]) + crlf_text() + header_block(hs.drop_first()));
    }
}

pub(crate) proof fn lemma_line_no_crlf(h: HeaderText)
    requires
        writable(h),
    ensures
        no_crlf(header_line(h)),
{
    let l = header_line(h);
    assert forall|i: int| 0 <= i < l.len() - 1 implies !(#[trigger] l[i] == '\r' && l[i + 1] == '\n') by {
        if i < h.0.len() - 1 {
            assert(l[i] == h.0[i] && l[i + 1] == h.0[i + 1]);
        } else if i == h.0.len() - 1 {
            assert(l[i + 1] == ':');
        } else if i == h.0.len() {
            assert(l[i] == ':');
        } else if i == h.0.len() + 1 {
            assert(l[i] == ' ');
        } else {
            let j = i - h.0.len() - 2;
            assert(l[i] == h.1[j] && l[i + 1] == h.1[j + 1]);
        }
    }
}

proof fn lemma_split_block(hs: Seq<HeaderText>, tail: Seq<char>)
    requires
        forall|i: int| 0 <= i < hs.len() ==> writable(#[trigger] hs[i]),
    ensures
        split_crlf(header_block(hs) + tail) == block_lines(hs) + split_crlf(tail),
    decreases hs.len(),
{
    if hs.len() == 0 {
        assert(header_block(hs) + tail =~= tail);
        assert(block_lines(hs) + split_crlf(tail) =~= split_crlf(tail));
    } else {
        lemma_block_front(hs);
        lemma_line_no_crlf(hs[0]);
        let rest = hs.drop_first();
        assert(forall|i: int| 0 <= i < rest.len() ==> writable(#[trigger] rest[i])) by {
            assert forall|i: int| 0 <= i < rest.len() implies writable(#[trigger] rest[i]) by {
                assert(rest[i] == hs[i + 1]);
            }
        }
        assert(header_block(hs) + tail =~= header_line(hs[0]) + crlf_text() + (header_block(rest)
            + tail));
        lemma_split_after_line(header_line(hs[0]), header_block(rest) + tail);
        lemma_split_block(rest, tail);
        assert(block_lines(hs) =~= seq![header_line(hs[0])] + block_lines(rest));
        assert(seq![header_line(hs[0])] + (block_lines(rest) + split_crlf(tail)) =~= block_lines(hs)
            + split_crlf(tail));
    }
}

proof fn lemma_trim_space_front(v: Seq<char>)
    requires
        trim(v) == v,
    ensures
        trim(seq![' '] + v) == v,
{
    let s = seq![' '] + v;
    assert(s.drop_first() =~= v);
    assert(trim_start(s) == trim_start(v));
}

proof fn lemma_line_reads_back(h: HeaderText)
    requires
        writable(h),
    ensures
        header_of_line(header_line(h)) == Some(h),
{
    let l = header_line(h);
    let k = h.0.len() as int;
    assert(l[k] == ':');
    assert forall|j: int| 0 <= j < k implies l[j] != ':' by {
        assert(l[j] == h.0[j]);
        if h.0[j] == ':' {
            assert(exists|i: int| 0 <= i < h.0.len() && h.0[i] == ':');
        }
    }
    lemma_find_char(l, ':', k);
    assert(l.take(k) =~= h.0);
    assert(l.skip(k + 1) =~= seq![' '] + h.1);
    lemma_trim_space_front(h.1);
}

proof fn lemma_lines_read_back(hs: Seq<HeaderText>)
    requires
        forall|i: int| 0 <= i < hs.len() ==> writable(#[trigger] hs[i]),
    ensures
        headers_of_lines(block_lines(hs)) == hs,
    decreases hs.len(),
{
    if hs.len() > 0 {
        let front = hs.drop_last();
        assert(forall|i: int| 0 <= i < front.len() ==> writable(#[trigger] front[i])) by {
            assert forall|i: int| 0 <= i < front.len() implies writable(#[trigger] front[i]) by {
                assert(front[i] == hs[i]);
            }
        }
        lemma_lines_read_back(front);
        assert(block_lines(hs).drop_last() =~= block_lines(front));
        lemma_line_reads_back(hs.last());
        assert(front.push(hs.last()) =~= hs);
    }
}

/// A head written from a start line and headers is read back as that start
/// line and those headers, when the start line holds no line break and each
/// header is one that reads back as itself.
pub proof fn lemma_head_round_trip(start: Seq<char>, hs: Seq<HeaderText>)
    requires
        no_crlf(start),
        forall|i: int| 0 <= i < hs.len() ==> writable(#[trigger] hs[i]),
    ensures
        head_of(start + crlf_text() + header_block(hs) + crlf_text()) == (start, hs),
{
    let text = start + crlf_text() + header_block(hs) + crlf_text();
    assert(text =~= start + crlf_text() + (header_block(hs) + crlf_text()));
    lemma_split_after_line(start, header_block(hs) + crlf_text());
    lemma_split_block(hs, crlf_text());
    let e = Seq::<char>::empty();
    assert(crlf_text() =~= e + crlf_text() + e);
    lemma_split_after_line(e, e);
    assert(split_crlf(e) == seq![e]);
    assert(split_crlf(crlf_text()) =~= seq![e, e]);
    let lines = split_crlf(text);
    assert(lines =~= seq![start] + (block_lines(hs) + seq![e, e]));
    assert(lines.drop_first() =~= block_lines(hs) + seq![e, e]);
    let with_blank = block_lines(hs) + seq![e];
    assert((block_lines(hs) + seq![e, e]).drop_last() =~= with_blank);
    assert(with_blank.drop_last() =~= block_lines(hs));
    assert(find_char(e, ':') is None);
    assert(header_of_line(e) is None);
    assert((block_lines(hs) + seq![e, e]).last() == e);
    assert(with_blank.last() == e);
    assert(headers_of_lines(block_lines(hs) + seq![e, e]) == headers_of_lines(with_blank));
    assert(headers_of_lines(with_blank) == headers_of_lines(block_lines(hs)));
    lemma_lines_read_back(hs);
}

/// The offset of the end of a head lies just past the first empty line.
pub proof fn lemma_head_end_is_first_blank_line(b: Seq<u8>)
    ensures
        head_end(b) matches Some(o) ==> blank_line_at(b, o - 4) && forall|j: int|
            0 <= j < o - 4 ==> !#[trigger] blank_line_at(b, j),
        head_end(b) is None ==> forall|j: int| !#[trigger] blank_line_at(b, j),
{
    if exists|i: int| #[trigger] blank_line_at(b, i) {
        let i = choose|i: int| #[trigger] blank_line_at(b, i);
        lemma_least_blank_line(b, i);
        let k = choose|k: int| #[trigger] blank_line_at(b, k) && forall|j: int| 0 <= j < k ==> !#[trigger] blank_line_at(b, j);
        assert(blank_line_at(b, k) && forall|j: int| 0 <= j < k ==> !#[trigger] blank_line_at(b, j));
        assert(head_end(b) == Some(k + 4));
    }
}

/// However a byte stream arrives in parts, nothing is taken from what has
/// arrived until the empty line ending the head is whole; from then on the
/// head taken is the one of the whole stream, followed by the bytes that
/// have arrived after it.
pub proof fn lemma_head_taken_in_prefix(b: Seq<u8>, k: int)
    requires
        0 <= k <= b.len(),
    ensures
        match head_taken(b) {
            Some(t) => {
                let o = head_end(b)->0;
                if o <= k {
                    head_taken(b.take(k)) == Some((t.0, t.1, b.subrange(o, k)))
                } else {
                    head_taken(b.take(k)) is None
                }
            },
            None => head_taken(b.take(k)) is None,
        },
{
    let p = b.take(k);
    lemma_head_end_is_first_blank_line(b);
    lemma_head_end_is_first_blank_line(p);
    assert forall|i: int| #[trigger] blank_line_at(p, i) implies blank_line_at(b, i) && i + 4 <= k by {
        assert(p[i] == b[i] && p[i + 1] == b[i + 1] && p[i + 2] == b[i + 2] && p[i + 3] == b[i + 3]);
    }
    match head_end(b) {
        Some(o) => {
            if o <= k {
                assert(p[o - 4] == b[o - 4] && p[o - 3] == b[o - 3] && p[o - 2] == b[o - 2] && p[o - 1]
                    == b[o - 1]);
                assert(blank_line_at(p, o - 4));
                assert forall|j: int| 0 <= j < o - 4 implies !#[trigger] blank_line_at(p, j) by {
                    if blank_line_at(p, j) {
                        assert(blank_line_at(b, j));
                    }
                }
                lemma_head_end(p, o - 4);
                assert(p.take(o) =~= b.take(o));
                assert(p.skip(o) =~= b.subrange(o, k));
            } else {
                assert forall|j: int| !#[trigger] blank_line_at(p, j) by {
                    if blank_line_at(p, j) {
                        assert(blank_line_at(b, j));
                        if j < o - 4 {
                        } else {
                            assert(j + 4 <= k);
                        }
                    }
                }
            }
        },
        None => {
            assert forall|j: int| !#[trigger] blank_line_at(p, j) by {
                if blank_line_at(p, j) {
                    assert(blank_line_at(b, j));
                }
            }
        },
    }
}

/// When an empty line occurs, a first one does.
proof fn lemma_least_blank_line(b: Seq<u8>, i: int)
    requires
        blank_line_at(b, i),
    ensures
        exists|k: int| #[trigger] blank_line_at(b, k) && forall|j: int| 0 <= j < k ==> !#[trigger] blank_line_at(b, j),
    decreases i,
{
    if exists|j: int| 0 <= j < i && #[trigger] blank_line_at(b, j) {
        let j = choose|j: int| 0 <= j < i && #[trigger] blank_line_at(b, j);
        lemma_least_blank_line(b, j);
    } else {
        assert(blank_line_at(b, i) && forall|j: int| 0 <= j < i ==> !#[trigger] blank_line_at(b, j));
    }
}

/// When a group of some name occurs, a first one does.
proof fn lemma_least_group(g: Seq<GroupText>, name: Seq<char>, i: int)
    requires
        0 <= i < g.len(),
        g[i].0 == name,
    ensures
        exists|k: int|
            0 <= k < g.len() && #[trigger] g[k].0 == name && forall|j: int|
                0 <= j < k ==> #[trigger] g[j].0 != name,
    decreases i,
{
    if exists|j: int| 0 <= j < i && #[trigger] g[j].0 == name {
        let j = choose|j: int| 0 <= j < i && #[trigger] g[j].0 == name;
        lemma_least_group(g, name, j);
    } else {
        assert(0 <= i < g.len() && g[i].0 == name && forall|j: int|
            0 <= j < i ==> #[trigger] g[j].0 != name);
    }
}

proof fn lemma_find_group_spec(g: Seq<GroupText>, name: Seq<char>)
    ensures
        find_group(g, name) matches Some(i) ==> 0 <= i < g.len() && g[i].0 == name,
        find_group(g, name) is None ==> forall|j: int| 0 <= j < g.len() ==> #[trigger] g[j].0 != name,
{
    if exists|i: int| 0 <= i < g.len() && #[trigger] g[i].0 == name {
        let i = choose|i: int| 0 <= i < g.len() && #[trigger] g[i].0 == name;
        lemma_least_group(g, name, i);
    }
}

/// In a header object each name occurs once, and each header given is found
/// among the values of its name.
pub proof fn lemma_grouping(hs: Seq<HeaderText>)
    ensures
        forall|i: int, j: int|
            0 <= i < j < group_headers(hs).len() ==> (#[trigger] group_headers(hs)[i]).0
                != (#[trigger] group_headers(hs)[j]).0,
        forall|i: int|
            0 <= i < hs.len() ==> exists|k: int|
                0 <= k < group_headers(hs).len() && (#[trigger] group_headers(hs)[k]).0 == (
                #[trigger] hs[i]).0 && group_headers(hs)[k].1.contains(hs[i].1),
    decreases hs.len(),
{
    if hs.len() > 0 {
        let front = hs.drop_last();
        let h = hs.last();
        lemma_grouping(front);
        let g = group_headers(front);
        let g2 = group_headers(hs);
        lemma_find_group_spec(g, h.0);
        assert(g2 == group_insert(g, h));
        match find_group(g, h.0) {
            Some(j) => {
                assert(g2 == g.update(j, (h.0, g[j].1.push(h.1))));
                assert forall|i: int| 0 <= i < hs.len() implies exists|k: int|
                    0 <= k < g2.len() && (#[trigger] g2[k]).0 == (#[trigger] hs[i]).0 && g2[k].1.contains(
                        hs[i].1,
                    ) by {
                    if i == hs.len() - 1 {
                        assert(g2[j].1.last() == h.1);
                        assert(g2[j].1[g2[j].1.len() - 1] == h.1);
                    } else {
                        assert(hs[i] == front[i]);
                        let k = choose|k: int|
                            0 <= k < g.len() && (#[trigger] g[k]).0 == (#[trigger] front[i]).0
                                && g[k].1.contains(front[i].1);
                        let m = choose|m: int| 0 <= m < g[k].1.len() && g[k].1[m] == front[i].1;
                        if k == j {
                            assert(g2[k].1[m] == front[i].1);
                        } else {
                            assert(g2[k] == g[k]);
                        }
                    }
                }
            },
            None => {
                assert(g2 == g.push((h.0, seq![h.1])));
                assert forall|i: int| 0 <= i < hs.len() implies exists|k: int|
                    0 <= k < g2.len() && (#[trigger] g2[k]).0 == (#[trigger] hs[i]).0 && g2[k].1.contains(
                        hs[i].1,
                    ) by {
                    if i == hs.len() - 1 {
                        assert(g2[g.len() as int].1[0] == h.1);
                    } else {
                        assert(hs[i] == front[i]);
                        let k = choose|k: int|
                            0 <= k < g.len() && (#[trigger] g[k]).0 == (#[trigger] front[i]).0
                                && g[k].1.contains(front[i].1);
                        assert(g2[k] == g[k]);
                    }
                }
            },
        }
    }
}

} // verus!
