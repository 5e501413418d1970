//! Character-level text model: whitespace, ASCII case, trimming, splitting,
//! joining, and decimal numbers, each with a spec over `Seq<char>` and an
//! executable counterpart proved against it.
use vstd::prelude::*;

verus! {

/// `String::push`: appends one character at the end of the string.
#[verifier::external_body]
fn push_char(s: &mut String, c: char)
    ensures
        final(s)@ == old(s)@.push(c),
{
    s.push(c);
}

/// The characters of a string slice, in order.
pub fn chars_of(s: &str) -> (r: Vec<char>)
    ensures
        r@ == s@,
{
    let mut r: Vec<char> = Vec::new();
    for c in it: s.chars()
        invariant
            r@ == it.seq().take(it.index() as int),
    {
        r.push(c);
    }
    r
}

/// The string made of the given characters, in order.
pub fn string_of(cs: &[char]) -> (r: String)
    ensures
        r@ == cs@,
{
    let mut r = String::new();
    let mut i: usize = 0;
    while i < cs.len()
        invariant
            i <= cs@.len(),
            r@ == cs@.take(i as int),
        decreases cs@.len() - i,
    {
        push_char(&mut r, cs[i]);
        i = i + 1;
        assert(cs@.take(i as int) =~= cs@.take(i - 1).push(cs@[i - 1]));
    }
    assert(cs@.take(cs@.len() as int) =~= cs@);
    r
}

/// Unicode `White_Space`, the property that `char::is_whitespace` tests.
pub open spec fn is_ws(c: char) -> bool {
    ||| ('\t' <= c && c <= '\r')
    ||| c == ' '
    ||| c == '\u{85}'
    ||| c == '\u{a0}'
    ||| c == '\u{1680}'
    ||| ('\u{2000}' <= c && c <= '\u{200a}')
    ||| c == '\u{2028}'
    ||| c == '\u{2029}'
    ||| c == '\u{202f}'
    ||| c == '\u{205f}'
    ||| c == '\u{3000}'
}

pub fn is_whitespace(c: char) -> (r: bool)
    ensures
        r == is_ws(c),
{
    ('\t' <= c && c <= '\r') || c == ' ' || c == '\u{85}' || c == '\u{a0}' || c == '\u{1680}'
        || ('\u{2000}' <= c && c <= '\u{200a}') || c == '\u{2028}' || c == '\u{2029}' || c
        == '\u{202f}' || c == '\u{205f}' || c == '\u{3000}'
}

/// ASCII lower case of one character; other characters are kept.
pub open spec fn lower_char(c: char) -> char {
    if 'A' <= c && c <= 'Z' {
        ((c as u32) + 32) as char
    } else {
        c
    }
}

/// ASCII lower case of a text, character by character.
pub open spec fn lower(s: Seq<char>) -> Seq<char> {
    s.map_values(|c: char| lower_char(c))
}

/// Equality of two texts when ASCII case is ignored.
pub open spec fn eq_ignore_case(a: Seq<char>, b: Seq<char>) -> bool {
    lower(a) == lower(b)
}

pub fn to_lower_char(c: char) -> (r: char)
    ensures
        r == lower_char(c),
{
    if 'A' <= c && c <= 'Z' {
        let b: u8 = (c as u8) + 32;
        b as char
    } else {
        c
    }
}

pub fn to_lower(s: &[char]) -> (r: Vec<char>)
    ensures
        r@ == lower(s@),
{
    let mut r: Vec<char> = Vec::new();
    let mut i: usize = 0;
    while i < s.len()
        invariant
            i <= s@.len(),
            r@ == lower(s@.take(i as int)),
        decreases s@.len() - i,
    {
        let c = to_lower_char(s[i]);
        r.push(c);
        i = i + 1;
        assert(lower(s@.take(i as int)) =~= lower(s@.take(i - 1)).push(lower_char(s@[i - 1])));
    }
    assert(s@.take(s@.len() as int) =~= s@);
    r
}

/// ASCII lower case of a string.
pub fn ascii_lowercase(s: &str) -> (r: String)
    ensures
        r@ == lower(s@),
{
    let cs = chars_of(s);
    let l = to_lower(cs.as_slice());
    string_of(l.as_slice())
}

pub fn eq_ignore_ascii_case(a: &[char], b: &[char]) -> (r: bool)
    ensures
        r == eq_ignore_case(a@, b@),
{
    if a.len() != b.len() {
        assert(lower(a@).len() != lower(b@).len());
        return false;
    }
    let mut i: usize = 0;
    while i < a.len()
        invariant
            a@.len() == b@.len(),
            i <= a@.len(),
            forall|j: int| 0 <= j < i ==> lower_char(a@[j]) == lower_char(b@[j]),
        decreases a@.len() - i,
    {
        if to_lower_char(a[i]) != to_lower_char(b[i]) {
            assert(lower(a@)[i as int] != lower(b@)[i as int]);
            return false;
        }
        i = i + 1;
    }
    assert(lower(a@) =~= lower(b@));
    true
}

/// `str::trim_start`: leading whitespace removed.
pub open spec fn trim_start(s: Seq<char>) -> Seq<char>
    decreases s.len(),
{
    if s.len() > 0 && is_ws(s[0]) {
        trim_start(s.drop_first())
    } else {
        s
    }
}

/// `str::trim_end`: trailing whitespace removed.
pub open spec fn trim_end(s: Seq<char>) -> Seq<char>
    decreases s.len(),
{
    if s.len() > 0 && is_ws(s.last()) {
        trim_end(s.drop_last())
    } else {
        s
    }
}

/// `str::trim`: leading and trailing whitespace removed.
pub open spec fn trim(s: Seq<char>) -> Seq<char> {
    trim_end(trim_start(s))
}

pub fn trim_chars(s: &[char]) -> (r: Vec<char>)
    ensures
        r@ == trim(s@),
{
    let n = s.len();
    let mut i: usize = 0;
    assert(s@.skip(0) =~= s@);
    while i < n && is_whitespace(s[i])
        invariant
            n == s@.len(),
            i <= n,
            trim_start(s@) == trim_start(s@.skip(i as int)),
        decreases n - i,
    {
        assert(s@.skip(i as int).drop_first() =~= s@.skip(i + 1));
        i = i + 1;
    }
    let ghost t = s@.skip(i as int);
    assert(trim_start(t) == t);
    let mut j: usize = n;
    assert(t.take((j - i) as int) =~= t);
    while j > i && is_whitespace(s[j - 1])
        invariant
            n == s@.len(),
            i <= j <= n,
            t == s@.skip(i as int),
            trim_end(t) == trim_end(t.take((j - i) as int)),
        decreases j,
    {
        assert(t.take((j - i) as int).drop_last() =~= t.take((j - 1 - i) as int));
        j = j - 1;
    }
    let mut r: Vec<char> = Vec::new();
    let mut k: usize = i;
    while k < j
        invariant
            n == s@.len(),
            i <= k <= j <= n,
            r@ == s@.subrange(i as int, k as int),
        decreases j - k,
    {
        r.push(s[k]);
        k = k + 1;
        assert(r@ =~= s@.subrange(i as int, k as int));
    }
    assert(t.take((j - i) as int) =~= s@.subrange(i as int, j as int));
    r
}

/// The first position of `c` in `s`.
pub open spec fn find_char(s: Seq<char>, c: char) -> Option<int> {
    if exists|i: int| 0 <= i < s.len() && s[i] == c {
        Some(choose|i: int| 0 <= i < s.len() && s[i] == c && forall|j: int| 0 <= j < i ==> s[j] != c)
    } else {
        None
    }
}

/// The last position of `c` in `s`.
pub open spec fn rfind_char(s: Seq<char>, c: char) -> Option<int> {
    if exists|i: int| 0 <= i < s.len() && s[i] == c {
        Some(choose|i: int| 0 <= i < s.len() && s[i] == c && forall|j: int| i < j < s.len() ==> s[j] != c)
    } else {
        None
    }
}

pub proof fn lemma_find_char(s: Seq<char>, c: char, i: int)
    requires
        0 <= i < s.len(),
        s[i] == c,
        forall|j: int| 0 <= j < i ==> s[j] != c,
    ensures
        find_char(s, c) == Some(i),
{
    let k = choose|k: int| 0 <= k < s.len() && s[k] == c && forall|j: int| 0 <= j < k ==> s[j] != c;
    assert(0 <= k < s.len() && s[k] == c && forall|j: int| 0 <= j < k ==> s[j] != c);
}

pub proof fn lemma_rfind_char(s: Seq<char>, c: char, i: int)
    requires
        0 <= i < s.len(),
        s[i] == c,
        forall|j: int| i < j < s.len() ==> s[j] != c,
    ensures
        rfind_char(s, c) == Some(i),
{
    let k = choose|k: int| 0 <= k < s.len() && s[k] == c && forall|j: int| k < j < s.len() ==> s[j] != c;
    assert(0 <= k < s.len() && s[k] == c && forall|j: int| k < j < s.len() ==> s[j] != c);
}

pub fn find(s: &[char], c: char) -> (r: Option<usize>)
    ensures
        r matches Some(i) ==> i < s@.len() && s@[i as int] == c && find_char(s@, c) == Some(
            i as int,
        ),
        r is None ==> find_char(s@, c) is None,
{
    let mut i: usize = 0;
    while i < s.len()
        invariant
            i <= s@.len(),
            forall|j: int| 0 <= j < i ==> s@[j] != c,
        decreases s@.len() - i,
    {
        if s[i] == c {
            proof {
                lemma_find_char(s@, c, i as int);
            }
            return Some(i);
        }
        i = i + 1;
    }
    None
}

pub fn rfind(s: &[char], c: char) -> (r: Option<usize>)
    ensures
        r matches Some(i) ==> i < s@.len() && s@[i as int] == c && rfind_char(s@, c) == Some(
            i as int,
        ),
        r is None ==> rfind_char(s@, c) is None,
{
    let mut i: usize = s.len();
    while i > 0
        invariant
            i <= s@.len(),
            forall|j: int| i <= j < s@.len() ==> s@[j] != c,
        decreases i,
    {
        if s[i - 1] == c {
            proof {
                lemma_rfind_char(s@, c, i - 1);
            }
            return Some(i - 1);
        }
        i = i - 1;
    }
    None
}

/// The characters of `s` from `from` up to `to`.
pub fn slice_of(s: &[char], from: usize, to: usize) -> (r: Vec<char>)
    requires
        from <= to <= s@.len(),
    ensures
        r@ == s@.subrange(from as int, to as int),
{
    let mut r: Vec<char> = Vec::new();
    let mut k: usize = from;
    while k < to
        invariant
            from <= k <= to <= s@.len(),
            r@ == s@.subrange(from as int, k as int),
        decreases to - k,
    {
        r.push(s[k]);
        k = k + 1;
        assert(r@ =~= s@.subrange(from as int, k as int));
    }
    r
}

/// Whether `s` starts with `p`.
pub fn starts_with(s: &[char], p: &[char]) -> (r: bool)
    ensures
        r == (p@.len() <= s@.len() && s@.take(p@.len() as int) == p@),
{
    if p.len() > s.len() {
        return false;
    }
    let mut i: usize = 0;
    while i < p.len()
        invariant
            p@.len() <= s@.len(),
            i <= p@.len(),
            forall|j: int| 0 <= j < i ==> s@[j] == p@[j],
        decreases p@.len() - i,
    {
        if s[i] != p[i] {
            assert(s@.take(p@.len() as int)[i as int] != p@[i as int]);
            return false;
        }
        i = i + 1;
    }
    assert(s@.take(p@.len() as int) =~= p@);
    true
}

/// Characters that two sequences of texts hold, as plain character sequences.
pub open spec fn texts_view(v: Seq<Vec<char>>) -> Seq<Seq<char>> {
    v.map_values(|x: Vec<char>| x@)
}

/// `cur` put in front of the first text of `rest`.
pub open spec fn glue(cur: Seq<char>, rest: Seq<Seq<char>>) -> Seq<Seq<char>> {
    rest.update(0, cur + rest[0])
}

/// `str::split("\r\n")`: the pieces between the non-overlapping CR LF pairs,
/// found from left to right.
pub open spec fn split_crlf(s: Seq<char>) -> Seq<Seq<char>>
    decreases s.len(),
{
    if s.len() == 0 {
        seq![Seq::<char>::empty()]
    } else if s.len() >= 2 && s[0] == '\r' && s[1] == '\n' {
        seq![Seq::<char>::empty()] + split_crlf(s.skip(2))
    } else {
        glue(seq![s[0]], split_crlf(s.drop_first()))
    }
}

pub proof fn lemma_split_crlf_len(s: Seq<char>)
    ensures
        split_crlf(s).len() >= 1,
    decreases s.len(),
{
    if s.len() == 0 {
    } else if s.len() >= 2 && s[0] == '\r' && s[1] == '\n' {
        lemma_split_crlf_len(s.skip(2));
    } else {
        lemma_split_crlf_len(s.drop_first());
    }
}

pub fn split_lines(s: &[char]) -> (r: Vec<Vec<char>>)
    ensures
        texts_view(r@) == split_crlf(s@),
{
    let n = s.len();
    let mut done: Vec<Vec<char>> = Vec::new();
    let mut cur: Vec<char> = Vec::new();
    let mut i: usize = 0;
    proof {
        assert(s@.skip(0) =~= s@);
        lemma_split_crlf_len(s@);
        assert(glue(seq![], split_crlf(s@)) =~= split_crlf(s@));
        assert(texts_view(done@) =~= seq![]);
    }
    while i < n
        invariant
            n == s@.len(),
            i <= n,
            split_crlf(s@) == texts_view(done@) + glue(cur@, split_crlf(s@.skip(i as int))),
        decreases n - i,
    {
        let ghost t = s@.skip(i as int);
        proof {
            lemma_split_crlf_len(t);
        }
        if i + 1 < n && s[i] == '\r' && s[i + 1] == '\n' {
            let ghost rest = split_crlf(s@.skip(i + 2));
            proof {
                assert(t.skip(2) =~= s@.skip(i + 2));
                lemma_split_crlf_len(s@.skip(i + 2));
                assert(split_crlf(t) == seq![Seq::<char>::empty()] + rest);
                assert(glue(cur@, split_crlf(t)) =~= seq![cur@] + rest);
                assert(glue(seq![], rest) =~= rest);
            }
            let ghost old_done = texts_view(done@);
            done.push(cur);
            cur = Vec::new();
            proof {
                assert(texts_view(done@) =~= old_done.push(done@.last()@));
            }
            i = i + 2;
        } else {
            let ghost rest = split_crlf(s@.skip(i + 1));
            proof {
                assert(t.drop_first() =~= s@.skip(i + 1));
                lemma_split_crlf_len(s@.skip(i + 1));
                assert(split_crlf(t) == glue(seq![s@[i as int]], rest));
                assert(cur@ + (seq![s@[i as int]] + rest[0]) =~= cur@.push(s@[i as int]) + rest[0]);
                assert(glue(cur@, split_crlf(t)) =~= glue(cur@.push(s@[i as int]), rest));
            }
            cur.push(s[i]);
            i = i + 1;
        }
    }
    proof {
        assert(s@.skip(n as int) =~= Seq::<char>::empty());
        assert(glue(cur@, split_crlf(s@.skip(n as int))) =~= seq![cur@]);
    }
    let ghost old_done = texts_view(done@);
    done.push(cur);
    proof {
        assert(texts_view(done@) =~= old_done.push(done@.last()@));
    }
    done
}

/// `str::split_whitespace`: the maximal runs of non-whitespace characters.
pub open spec fn words(s: Seq<char>) -> Seq<Seq<char>>
    decreases s.len(),
{
    if s.len() == 0 {
        Seq::empty()
    } else if is_ws(s[0]) {
        words(s.drop_first())
    } else if s.len() >= 2 && !is_ws(s[1]) {
        glue(seq![s[0]], words(s.drop_first()))
    } else {
        seq![seq![s[0]]] + words(s.drop_first())
    }
}

pub proof fn lemma_words_len(s: Seq<char>)
    requires
        s.len() > 0,
        !is_ws(s[0]),
    ensures
        words(s).len() >= 1,
    decreases s.len(),
{
    if s.len() >= 2 && !is_ws(s[1]) {
        lemma_words_len(s.drop_first());
    }
}

/// The words of `t` when a word `cur` is still open in front of it.
pub open spec fn open_word(cur: Seq<char>, t: Seq<char>) -> Seq<Seq<char>> {
    if t.len() > 0 && !is_ws(t[0]) {
        glue(cur, words(t))
    } else {
        seq![cur] + words(t)
    }
}

pub fn split_words(s: &[char]) -> (r: Vec<Vec<char>>)
    ensures
        texts_view(r@) == words(s@),
{
    let n = s.len();
    let mut done: Vec<Vec<char>> = Vec::new();
    let mut cur: Vec<char> = Vec::new();
    let mut i: usize = 0;
    proof {
        assert(s@.skip(0) =~= s@);
        assert(texts_view(done@) =~= seq![]);
    }
    while i < n
        invariant
            n == s@.len(),
            i <= n,
            cur@.len() == 0 ==> words(s@) == texts_view(done@) + words(s@.skip(i as int)),
            cur@.len() > 0 ==> words(s@) == texts_view(done@) + open_word(cur@, s@.skip(i as int)),
        decreases n - i,
    {
        let ghost t = s@.skip(i as int);
        let ghost t1 = s@.skip(i + 1);
        proof {
            assert(t.drop_first() =~= t1);
            if t1.len() > 0 && !is_ws(t1[0]) {
                lemma_words_len(t1);
            }
        }
        let c = s[i];
        if is_whitespace(c) {
            if cur.len() > 0 {
                let ghost old_done = texts_view(done@);
                done.push(cur);
                cur = Vec::new();
                proof {
                    assert(texts_view(done@) =~= old_done.push(done@.last()@));
                }
            }
        } else {
            proof {
                if cur@.len() > 0 {
                    if t1.len() > 0 && !is_ws(t1[0]) {
                        assert(words(t) == glue(seq![c], words(t1)));
                        assert(cur@ + (seq![c] + words(t1)[0]) =~= cur@.push(c) + words(t1)[0]);
                        assert(glue(cur@, words(t)) =~= glue(cur@.push(c), words(t1)));
                    } else {
                        assert(words(t) == seq![seq![c]] + words(t1));
                        assert(cur@ + seq![c] =~= cur@.push(c));
                        assert(glue(cur@, words(t)) =~= seq![cur@.push(c)] + words(t1));
                    }
                } else {
                    if t1.len() > 0 && !is_ws(t1[0]) {
                        assert(seq![c] =~= cur@.push(c));
                    } else {
                        assert(seq![c] =~= cur@.push(c));
                    }
                }
            }
            cur.push(c);
        }
        i = i + 1;
    }
    proof {
        assert(s@.skip(n as int) =~= Seq::<char>::empty());
    }
    if cur.len() > 0 {
        let ghost old_done = texts_view(done@);
        done.push(cur);
        proof {
            assert(texts_view(done@) =~= old_done.push(done@.last()@));
        }
    }
    done
}

/// The texts of `ws` with `sep` between each two of them.
pub open spec fn join(ws: Seq<Seq<char>>, sep: Seq<char>) -> Seq<char>
    decreases ws.len(),
{
    if ws.len() == 0 {
        Seq::empty()
    } else if ws.len() == 1 {
        ws[0]
    } else {
        join(ws.drop_last(), sep) + sep + ws.last()
    }
}

pub fn join_texts(ws: &[Vec<char>], sep: &[char]) -> (r: Vec<char>)
    ensures
        r@ == join(texts_view(ws@), sep@),
{
    let mut r: Vec<char> = Vec::new();
    let mut i: usize = 0;
    while i < ws.len()
        invariant
            i <= ws@.len(),
            r@ == join(texts_view(ws@).take(i as int), sep@),
        decreases ws@.len() - i,
    {
        if i > 0 {
            r.extend_from_slice(sep);
        }
        r.extend_from_slice(ws[i].as_slice());
        i = i + 1;
        proof {
            let v = texts_view(ws@);
            assert(v.take(i as int).drop_last() =~= v.take(i - 1));
            assert(v.take(i as int).last() == ws@[i - 1]@);
            if i == 1 {
                assert(join(v.take(1), sep@) == v.take(1)[0]);
            }
        }
        assert(r@ =~= join(texts_view(ws@).take(i as int), sep@));
    }
    assert(texts_view(ws@).take(ws@.len() as int) =~= texts_view(ws@));
    r
}

/// The character of a decimal digit.
pub open spec fn digit_char(d: nat) -> char {
    ((d + 48) as u32) as char
}

/// The shortest decimal writing of `n`.
pub open spec fn decimal(n: nat) -> Seq<char>
    decreases n,
{
    if n < 10 {
        seq![digit_char(n)]
    } else {
        decimal(n / 10).push(digit_char(n % 10))
    }
}

/// The decimal writing of an integer, with a leading `-` when it is negative.
pub open spec fn decimal_int(n: int) -> Seq<char> {
    if n < 0 {
        seq!['-'] + decimal((-n) as nat)
    } else {
        decimal(n as nat)
    }
}

/// `{:02}`: at least two digits, with a leading zero below ten.
pub open spec fn pad2(n: nat) -> Seq<char> {
    if n < 10 {
        seq!['0', digit_char(n)]
    } else {
        decimal(n)
    }
}

fn digit_of(d: u64) -> (c: char)
    requires
        d < 10,
    ensures
        c == digit_char(d as nat),
{
    let b: u8 = (d as u8) + 48;
    b as char
}

pub fn fmt_u64(n: u64) -> (r: Vec<char>)
    ensures
        r@ == decimal(n as nat),
    decreases n,
{
    if n < 10 {
        let mut r: Vec<char> = Vec::new();
        r.push(digit_of(n));
        assert(r@ =~= decimal(n as nat));
        r
    } else {
        let mut r = fmt_u64(n / 10);
        r.push(digit_of(n % 10));
        r
    }
}

pub fn fmt_i64(n: i64) -> (r: Vec<char>)
    ensures
        r@ == decimal_int(n as int),
{
    if n < 0 {
        let m: u64 = ((-(n + 1)) as u64) + 1;
        let d = fmt_u64(m);
        let mut r: Vec<char> = Vec::new();
        r.push('-');
        r.extend_from_slice(d.as_slice());
        assert(r@ =~= decimal_int(n as int));
        r
    } else {
        fmt_u64(n as u64)
    }
}

pub fn fmt_pad2(n: u64) -> (r: Vec<char>)
    ensures
        r@ == pad2(n as nat),
{
    if n < 10 {
        let mut r: Vec<char> = Vec::new();
        r.push('0');
        r.push(digit_of(n));
        assert(r@ =~= pad2(n as nat));
        r
    } else {
        fmt_u64(n)
    }
}

pub open spec fn is_digit(c: char) -> bool {
    '0' <= c && c <= '9'
}

pub open spec fn digit_value(c: char) -> nat {
    ((c as u32) - 48) as nat
}

pub open spec fn all_digits(s: Seq<char>) -> bool {
    forall|i: int| 0 <= i < s.len() ==> is_digit(s[i])
}

/// The number that a string of decimal digits writes.
pub open spec fn digits_value(s: Seq<char>) -> nat
    decreases s.len(),
{
    if s.len() == 0 {
        0
    } else {
        digits_value(s.drop_last()) * 10 + digit_value(s.last())
    }
}

pub proof fn lemma_digits_prefix(s: Seq<char>, k: int)
    requires
        0 <= k <= s.len(),
    ensures
        digits_value(s.take(k)) <= digits_value(s),
    decreases s.len(),
{
    if k == s.len() {
        assert(s.take(k) =~= s);
    } else {
        assert(s.take(k) =~= s.drop_last().take(k));
        lemma_digits_prefix(s.drop_last(), k);
    }
}

/// The digits after an optional leading sign.
pub open spec fn unsigned_body(s: Seq<char>) -> Seq<char> {
    if s.len() > 0 && s[0] == '+' {
        s.drop_first()
    } else {
        s
    }
}

/// `<u16 as FromStr>::from_str`: an optional `+`, then at least one decimal
/// digit, with a value that fits.
pub open spec fn parse_u16(s: Seq<char>) -> Option<u16> {
    let body = unsigned_body(s);
    if body.len() == 0 || !all_digits(body) || digits_value(body) > u16::MAX {
        None
    } else {
        Some(digits_value(body) as u16)
    }
}

/// The digits after an optional leading `+` or `-`.
pub open spec fn signed_body(s: Seq<char>) -> Seq<char> {
    if s.len() > 0 && (s[0] == '+' || s[0] == '-') {
        s.drop_first()
    } else {
        s
    }
}

/// `<i64 as FromStr>::from_str`: an optional sign, then at least one decimal
/// digit, with a value that fits.
pub open spec fn parse_i64(s: Seq<char>) -> Option<i64> {
    let body = signed_body(s);
    let v: int = if s.len() > 0 && s[0] == '-' {
        -digits_value(body)
    } else {
        digits_value(body) as int
    };
    if body.len() == 0 || !all_digits(body) || v < i64::MIN || v > i64::MAX {
        None
    } else {
        Some(v as i64)
    }
}

/// Reads the digits of `s` from `from` on, giving up as soon as the value
/// passes `limit`.
fn read_digits(s: &[char], from: usize, limit: u64) -> (r: Option<u64>)
    requires
        from <= s@.len(),
    ensures
        r matches Some(v) ==> all_digits(s@.skip(from as int)) && v == digits_value(
            s@.skip(from as int),
        ) && v <= limit,
        r is None ==> !all_digits(s@.skip(from as int)) || digits_value(s@.skip(from as int))
            > limit,
{
    let ghost body = s@.skip(from as int);
    let mut acc: u128 = 0;
    let mut i: usize = from;
    assert(body.take(0) =~= Seq::<char>::empty());
    while i < s.len()
        invariant
            from <= i <= s@.len(),
            body == s@.skip(from as int),
            acc <= limit,
            all_digits(body.take(i - from)),
            acc == digits_value(body.take(i - from)),
        decreases s@.len() - i,
    {
        let c = s[i];
        if !('0' <= c && c <= '9') {
            assert(!is_digit(body[i - from]));
            return None;
        }
        let d: u128 = ((c as u32) - 48) as u128;
        proof {
            assert(body.take(i + 1 - from).drop_last() =~= body.take(i - from));
            assert(body.take(i + 1 - from).last() == c);
        }
        acc = acc * 10 + d;
        i = i + 1;
        if acc > limit as u128 {
            proof {
                if all_digits(body) {
                    lemma_digits_prefix(body, i - from);
                }
            }
            return None;
        }
    }
    assert(body.take(i - from) =~= body);
    Some(acc as u64)
}

pub fn parse_u16_chars(s: &[char]) -> (r: Option<u16>)
    ensures
        r == parse_u16(s@),
{
    let from: usize = if s.len() > 0 && s[0] == '+' { 1 } else { 0 };
    assert(unsigned_body(s@) =~= s@.skip(from as int));
    if from == s.len() {
        return None;
    }
    match read_digits(s, from, 65535) {
        Some(v) => Some(v as u16),
        None => None,
    }
}

pub fn parse_i64_chars(s: &[char]) -> (r: Option<i64>)
    ensures
        r == parse_i64(s@),
{
    let neg = s.len() > 0 && s[0] == '-';
    let from: usize = if s.len() > 0 && (s[0] == '+' || s[0] == '-') { 1 } else { 0 };
    assert(signed_body(s@) =~= s@.skip(from as int));
    if from == s.len() {
        return None;
    }
    match read_digits(s, from, 0x8000_0000_0000_0000) {
        Some(v) => {
            if neg {
                if v == 0x8000_0000_0000_0000 {
                    Some(i64::MIN)
                } else {
                    Some(-(v as i64))
                }
            } else if v <= 0x7fff_ffff_ffff_ffff {
                Some(v as i64)
            } else {
                None
            }
        },
        None => None,
    }
}

} // verus!
