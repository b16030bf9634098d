//! Text helpers: lower-casing, whitespace splitting and joining.
use vstd::prelude::*;
use vstd::string::*;

verus! {

/// The lower-case form of a text that is not all ASCII, as
/// `str::to_lowercase` computes it (Unicode lower-case mapping).
pub uninterp spec fn spec_to_lowercase(s: Seq<char>) -> Seq<char>;

/// Lower-cases `s` with `str::to_lowercase`; its result is named
/// [`spec_to_lowercase`].
#[verifier::external_body]
fn to_lowercase(s: &str) -> (r: String)
    ensures
        r@ == spec_to_lowercase(s@),
{
    s.to_lowercase()
}

/// Whether every character of `s` is ASCII.
pub open spec fn is_ascii_text(s: Seq<char>) -> bool {
    forall|i: int| 0 <= i < s.len() ==> (#[trigger] s[i] as u32) < 128
}

/// The lower-case form of an ASCII character: `A`–`Z` map to `a`–`z`.
pub open spec fn ascii_lower(c: char) -> char {
    if 65 <= (c as u32) && (c as u32) <= 90 {
        (((c as u32) + 32) as u8) as char
    } else {
        c
    }
}

/// The lower-case form of a text, as `str::to_lowercase` computes it: on
/// ASCII text the letters `A`–`Z` map to `a`–`z`; other text goes by the
/// Unicode mapping ([`spec_to_lowercase`]).
pub open spec fn lowercase(s: Seq<char>) -> Seq<char> {
    if is_ascii_text(s) {
        s.map_values(|c: char| ascii_lower(c))
    } else {
        spec_to_lowercase(s)
    }
}

/// Lower-cases `s` (`str::to_lowercase`).
pub fn lowercase_text(s: &str) -> (r: String)
    ensures
        r@ == lowercase(s@),
{
    let chars = str_chars(s);
    let mut i: usize = 0;
    while i < chars.len()
        invariant
            chars@ == s@,
            0 <= i <= chars@.len(),
            forall|k: int| 0 <= k < i ==> (#[trigger] chars@[k] as u32) < 128,
        decreases chars@.len() - i,
    {
        if (chars[i] as u32) >= 128 {
            return to_lowercase(s);
        }
        i = i + 1;
    }
    let mut out = String::new();
    let mut j: usize = 0;
    while j < chars.len()
        invariant
            chars@ == s@,
            is_ascii_text(s@),
            0 <= j <= chars@.len(),
            out@ == chars@.subrange(0, j as int).map_values(|c: char| ascii_lower(c)),
        decreases chars@.len() - j,
    {
        let c = chars[j];
        let u = c as u32;
        let d = if 65 <= u && u <= 90 {
            ((u + 32) as u8) as char
        } else {
            c
        };
        string_push(&mut out, d);
        j = j + 1;
        assert(out@ =~= chars@.subrange(0, j as int).map_values(|c: char| ascii_lower(c)));
    }
    assert(chars@.subrange(0, chars@.len() as int) =~= chars@);
    out
}

/// `s` with the ASCII letters `A`–`Z` lowered.
pub open spec fn ascii_lowered(s: Seq<char>) -> Seq<char> {
    s.map_values(|c: char| ascii_lower(c))
}

/// Lowering distributes over concatenation.
pub proof fn lemma_lowered_concat(a: Seq<char>, b: Seq<char>)
    ensures
        ascii_lowered(a + b) == ascii_lowered(a) + ascii_lowered(b),
{
    assert(ascii_lowered(a + b) =~= ascii_lowered(a) + ascii_lowered(b));
}

/// Lowering a join lowers the parts and the separator.
pub proof fn lemma_lowered_join(ws: Seq<Seq<char>>, sep: Seq<char>)
    ensures
        ascii_lowered(join_with(ws, sep)) == join_with(
            ws.map_values(|w: Seq<char>| ascii_lowered(w)),
            ascii_lowered(sep),
        ),
    decreases ws.len(),
{
    let lw = ws.map_values(|w: Seq<char>| ascii_lowered(w));
    if ws.len() == 0 {
        assert(ascii_lowered(Seq::<char>::empty()) =~= Seq::<char>::empty());
    } else if ws.len() > 1 {
        let d = ws.drop_last();
        lemma_lowered_join(d, sep);
        assert(lw.drop_last() =~= d.map_values(|w: Seq<char>| ascii_lowered(w)));
        lemma_lowered_concat(join_with(d, sep) + sep, ws.last());
        lemma_lowered_concat(join_with(d, sep), sep);
    }
}

/// Appends a character: `String::push`.
#[verifier::external_body]
pub fn string_push(s: &mut String, c: char)
    ensures
        final(s)@ == old(s)@.push(c),
{
    s.push(c)
}

/// The characters of `s`, in order.
pub fn str_chars(s: &str) -> (r: Vec<char>)
    ensures
        r@ == s@,
{
    let mut out: Vec<char> = Vec::new();
    for c in it: s.chars()
        invariant
            out@ == it.seq().take(it.index()),
    {
        out.push(c);
    }
    out
}

/// Unicode `White_Space`, as `char::is_whitespace` defines it.
pub open spec fn is_whitespace(c: char) -> bool {
    let u = c as u32;
    (0x09 <= u && u <= 0x0D) || u == 0x20 || u == 0x85 || u == 0xA0 || u == 0x1680 || (0x2000
        <= u && u <= 0x200A) || u == 0x2028 || u == 0x2029 || u == 0x202F || u == 0x205F || u
        == 0x3000
}

/// Whether `c` is whitespace (`char::is_whitespace`).
pub fn char_is_whitespace(c: char) -> (b: bool)
    ensures
        b == is_whitespace(c),
{
    let u = c as u32;
    (0x09 <= u && u <= 0x0D) || u == 0x20 || u == 0x85 || u == 0xA0 || u == 0x1680 || (0x2000
        <= u && u <= 0x200A) || u == 0x2028 || u == 0x2029 || u == 0x202F || u == 0x205F || u
        == 0x3000
}

/// Sentence punctuation that separates words like a space does.
pub open spec fn is_punctuation(c: char) -> bool {
    c == '.' || c == ',' || c == '!' || c == '?'
}

/// `s` with every `. , ! ?` replaced by a space.
pub open spec fn blank_punctuation(s: Seq<char>) -> Seq<char> {
    s.map_values(|c: char| if is_punctuation(c) { ' ' } else { c })
}

/// Replaces every `. , ! ?` of `s` by a space.
pub fn blank_punctuation_vec(s: &Vec<char>) -> (r: Vec<char>)
    ensures
        r@ == blank_punctuation(s@),
{
    let mut out: Vec<char> = Vec::with_capacity(s.len());
    let mut i: usize = 0;
    while i < s.len()
        invariant
            0 <= i <= s@.len(),
            out@ == blank_punctuation(s@.subrange(0, i as int)),
        decreases s@.len() - i,
    {
        let c = s[i];
        let d = if c == '.' || c == ',' || c == '!' || c == '?' { ' ' } else { c };
        out.push(d);
        i = i + 1;
        assert(out@ =~= blank_punctuation(s@.subrange(0, i as int)));
    }
    assert(s@.subrange(0, s@.len() as int) =~= s@);
    out
}

/// The token being read, as a list of zero or one tokens.
pub open spec fn pending(cur: Seq<char>) -> Seq<Seq<char>> {
    if cur.len() == 0 { Seq::empty() } else { seq![cur] }
}

/// Splitting `s[i..]` at whitespace, with `cur` already read of the current token.
pub open spec fn split_from(s: Seq<char>, i: int, cur: Seq<char>) -> Seq<Seq<char>>
    decreases s.len() - i,
{
    if i < 0 || i >= s.len() {
        pending(cur)
    } else if is_whitespace(s[i]) {
        pending(cur) + split_from(s, i + 1, Seq::empty())
    } else {
        split_from(s, i + 1, cur.push(s[i]))
    }
}

/// The maximal runs of non-whitespace characters of `s` (`str::split_whitespace`).
pub open spec fn split_whitespace(s: Seq<char>) -> Seq<Seq<char>> {
    split_from(s, 0, Seq::empty())
}

/// The text of each string in `s`.
pub open spec fn string_texts(s: Seq<String>) -> Seq<Seq<char>> {
    s.map_values(|w: String| w@)
}

/// Splits `s` at whitespace into its words.
pub fn split_whitespace_vec(s: &Vec<char>) -> (r: Vec<String>)
    ensures
        string_texts(r@) == split_whitespace(s@),
{
    let mut out: Vec<String> = Vec::new();
    let mut cur = String::new();
    let mut i: usize = 0;
    while i < s.len()
        invariant
            0 <= i <= s@.len(),
            string_texts(out@) + split_from(s@, i as int, cur@) == split_whitespace(s@),
        decreases s@.len() - i,
    {
        let c = s[i];
        if char_is_whitespace(c) {
            proof {
                assert(string_texts(out@) + split_from(s@, i as int, cur@) =~= string_texts(out@)
                    + pending(cur@) + split_from(s@, i + 1, Seq::empty()));
            }
            if !cur.as_str().is_empty() {
                let ghost before = string_texts(out@);
                out.push(cur);
                proof {
                    assert(string_texts(out@) =~= before + pending(cur@));
                }
                cur = String::new();
            } else {
                proof {
                    assert(string_texts(out@) + pending(cur@) =~= string_texts(out@));
                }
                cur = String::new();
            }
        } else {
            string_push(&mut cur, c);
        }
        i = i + 1;
    }
    if !cur.as_str().is_empty() {
        let ghost before = string_texts(out@);
        out.push(cur);
        proof {
            assert(string_texts(out@) =~= before + pending(cur@));
        }
    } else {
        proof {
            assert(string_texts(out@) + pending(cur@) =~= string_texts(out@));
        }
    }
    out
}

/// The texts of `ws` joined by `sep`.
pub open spec fn join_with(ws: Seq<Seq<char>>, sep: Seq<char>) -> Seq<char>
    decreases ws.len(),
{
    if ws.len() == 0 {
        Seq::empty()
    } else if ws.len() == 1 {
        ws[0]
    } else {
        join_with(ws.drop_last(), sep) + sep + ws.last()
    }
}

/// Joins strings with a separator (`[String]::join`).
pub fn join_strings(parts: &Vec<String>, sep: &str) -> (r: String)
    ensures
        r@ == join_with(string_texts(parts@), sep@),
{
    let ghost ws = string_texts(parts@);
    let mut out = String::new();
    let mut i: usize = 0;
    while i < parts.len()
        invariant
            ws == string_texts(parts@),
            0 <= i <= ws.len(),
            out@ == join_with(ws.subrange(0, i as int), sep@),
        decreases ws.len() - i,
    {
        if i > 0 {
            out.append(sep);
        }
        out.append(parts[i].as_str());
        proof {
            let sub = ws.subrange(0, i + 1);
            assert(sub.drop_last() =~= ws.subrange(0, i as int));
            if i == 0 {
                assert(ws.subrange(0, 0) =~= Seq::<Seq<char>>::empty());
                assert(out@ =~= sub[0]);
            }
        }
        i = i + 1;
    }
    assert(ws.subrange(0, ws.len() as int) =~= ws);
    out
}

/// `s` without leading whitespace.
pub open spec fn trim_start(s: Seq<char>) -> Seq<char>
    decreases s.len(),
{
    if s.len() > 0 && is_whitespace(s[0]) {
        trim_start(s.drop_first())
    } else {
        s
    }
}

/// `s` without trailing whitespace.
pub open spec fn trim_end(s: Seq<char>) -> Seq<char>
    decreases s.len(),
{
    if s.len() > 0 && is_whitespace(s.last()) {
        trim_end(s.drop_last())
    } else {
        s
    }
}

/// `s` without leading and trailing whitespace (`str::trim`).
pub open spec fn trim(s: Seq<char>) -> Seq<char> {
    trim_end(trim_start(s))
}

/// Removes leading and trailing whitespace.
pub fn trim_chars(s: &Vec<char>) -> (r: Vec<char>)
    ensures
        r@ == trim(s@),
{
    let n = s.len();
    let mut lo: usize = 0;
    proof {
        assert(s@.subrange(0, n as int) =~= s@);
    }
    while lo < n && char_is_whitespace(s[lo])
        invariant
            n == s@.len(),
            0 <= lo <= n,
            trim_start(s@) == trim_start(s@.subrange(lo as int, n as int)),
        decreases n - lo,
    {
        proof {
            let sub = s@.subrange(lo as int, n as int);
            assert(sub.drop_first() =~= s@.subrange(lo + 1, n as int));
        }
        lo = lo + 1;
    }
    let mut hi: usize = n;
    proof {
        let sub = s@.subrange(lo as int, n as int);
        if lo == n {
            assert(sub =~= Seq::<char>::empty());
        }
        assert(trim_start(s@) == sub);
    }
    while hi > lo && char_is_whitespace(s[hi - 1])
        invariant
            n == s@.len(),
            0 <= lo <= hi <= n,
            trim(s@) == trim_end(s@.subrange(lo as int, hi as int)),
        decreases hi - lo,
    {
        proof {
            let sub = s@.subrange(lo as int, hi as int);
            assert(sub.drop_last() =~= s@.subrange(lo as int, hi - 1));
        }
        hi = hi - 1;
    }
    let mut out: Vec<char> = Vec::new();
    let mut i: usize = lo;
    while i < hi
        invariant
            n == s@.len(),
            0 <= lo <= i <= hi <= n,
            out@ == s@.subrange(lo as int, i as int),
        decreases hi - i,
    {
        out.push(s[i]);
        i = i + 1;
        assert(out@ =~= s@.subrange(lo as int, i as int));
    }
    out
}

/// A string holding the characters `s`.
pub fn chars_to_string(s: &Vec<char>) -> (r: String)
    ensures
        r@ == s@,
{
    let mut out = String::new();
    let mut i: usize = 0;
    while i < s.len()
        invariant
            0 <= i <= s@.len(),
            out@ == s@.subrange(0, i as int),
        decreases s@.len() - i,
    {
        string_push(&mut out, s[i]);
        i = i + 1;
        assert(out@ =~= s@.subrange(0, i as int));
    }
    assert(s@.subrange(0, s@.len() as int) =~= s@);
    out
}

/// The lines of `s[i..]` split at `'\n'`, with `cur` already read of the
/// current line; the last line may be empty.
pub open spec fn lines_from(s: Seq<char>, i: int, cur: Seq<char>) -> Seq<Seq<char>>
    decreases s.len() - i,
{
    if i < 0 || i >= s.len() {
        seq![cur]
    } else if s[i] == '\n' {
        seq![cur] + lines_from(s, i + 1, Seq::empty())
    } else {
        lines_from(s, i + 1, cur.push(s[i]))
    }
}

/// The trimmed lines that are not blank, in order.
pub open spec fn kept_lines(ls: Seq<Seq<char>>) -> Seq<Seq<char>>
    decreases ls.len(),
{
    if ls.len() == 0 {
        Seq::empty()
    } else if trim(ls[0]).len() == 0 {
        kept_lines(ls.drop_first())
    } else {
        seq![trim(ls[0])] + kept_lines(ls.drop_first())
    }
}

/// The non-blank lines of `s`, trimmed: `str::lines`, then `str::trim`,
/// then dropping empty lines.
pub open spec fn nonblank_lines(s: Seq<char>) -> Seq<Seq<char>> {
    kept_lines(lines_from(s, 0, Seq::empty()))
}

/// The non-blank lines of `s[from..to]`, trimmed.
pub fn nonblank_lines_vec(s: &Vec<char>, from: usize, to: usize) -> (r: Vec<String>)
    requires
        from <= to <= s@.len(),
    ensures
        string_texts(r@) == nonblank_lines(s@.subrange(from as int, to as int)),
{
    let ghost t = s@.subrange(from as int, to as int);
    let mut out: Vec<String> = Vec::new();
    let mut cur: Vec<char> = Vec::new();
    let mut i: usize = from;
    while i < to
        invariant
            t == s@.subrange(from as int, to as int),
            from <= i <= to <= s@.len(),
            string_texts(out@) + kept_lines(lines_from(t, i - from, cur@)) == nonblank_lines(t),
        decreases to - i,
    {
        let c = s[i];
        let ghost j = i - from;
        assert(t[j] == c);
        if c == '\n' {
            let line = trim_chars(&cur);
            let ghost rest = lines_from(t, j + 1, Seq::empty());
            proof {
                let ls = seq![cur@] + rest;
                assert(ls.drop_first() =~= rest);
                assert(ls[0] == cur@);
            }
            if line.len() > 0 {
                let ghost before = string_texts(out@);
                let text = chars_to_string(&line);
                out.push(text);
                proof {
                    assert(string_texts(out@) =~= before.push(line@));
                    assert(before.push(line@) + kept_lines(rest) =~= before + (seq![line@] + kept_lines(rest)));
                }
            }
            cur = Vec::new();
        } else {
            cur.push(c);
        }
        i = i + 1;
    }
    let ghost ls = seq![cur@];
    let ghost e = Seq::<Seq<char>>::empty();
    proof {
        assert(lines_from(t, i - from, cur@) == ls);
        assert(ls.drop_first() =~= e);
        assert(kept_lines(e) == e);
        assert(ls[0] == cur@);
    }
    let line = trim_chars(&cur);
    if line.len() > 0 {
        let ghost before = string_texts(out@);
        let text = chars_to_string(&line);
        out.push(text);
        proof {
            assert(kept_lines(ls) == seq![line@] + kept_lines(e));
            assert(string_texts(out@) =~= before + (seq![line@] + e));
        }
    } else {
        assert(kept_lines(ls) == kept_lines(e));
        assert(string_texts(out@) + e =~= string_texts(out@));
    }
    out
}

/// The first position at or after `i` where `pat` occurs in `s`.
pub open spec fn find_from(s: Seq<char>, pat: Seq<char>, i: int) -> Option<int>
    decreases s.len() - i,
{
    if i < 0 || i >= s.len() || i + pat.len() > s.len() {
        None
    } else if s.subrange(i, i + pat.len()) == pat {
        Some(i)
    } else {
        find_from(s, pat, i + 1)
    }
}

/// Whether `pat` occurs in `s` at position `i`.
fn occurs_at(s: &Vec<char>, pat: &Vec<char>, i: usize) -> (b: bool)
    requires
        i + pat@.len() <= s@.len(),
    ensures
        b == (s@.subrange(i as int, i + pat@.len()) == pat@),
{
    let mut k: usize = 0;
    while k < pat.len()
        invariant
            i + pat@.len() <= s.len(),
            0 <= k <= pat@.len(),
            s@.subrange(i as int, i + k) == pat@.subrange(0, k as int),
        decreases pat@.len() - k,
    {
        if s[i + k] != pat[k] {
            assert(s@.subrange(i as int, i + pat@.len())[k as int] != pat@[k as int]);
            return false;
        }
        k = k + 1;
        assert(s@.subrange(i as int, i + k) =~= pat@.subrange(0, k as int));
    }
    assert(pat@.subrange(0, pat@.len() as int) =~= pat@);
    true
}

/// The first position at or after `from` where `pat` occurs in `s`.
pub fn find_chars(s: &Vec<char>, pat: &Vec<char>, from: usize) -> (r: Option<usize>)
    ensures
        match r {
            Some(p) => find_from(s@, pat@, from as int) == Some(p as int),
            None => find_from(s@, pat@, from as int) is None,
        },
{
    let mut i: usize = from;
    while i < s.len()
        invariant
            from <= i,
            find_from(s@, pat@, from as int) == find_from(s@, pat@, i as int),
        decreases s@.len() - i,
    {
        if pat.len() > s.len() - i {
            return None;
        }
        if occurs_at(s, pat, i) {
            return Some(i);
        }
        i = i + 1;
    }
    None
}

// ---------------------------------------------------------------------------
// Facts about splitting and joining
// ---------------------------------------------------------------------------

/// Whether every character of `s` is whitespace.
pub open spec fn all_whitespace(s: Seq<char>) -> bool {
    forall|j: int| 0 <= j < s.len() ==> is_whitespace(#[trigger] s[j])
}

/// Whether `w` is a word: non-empty, without whitespace.
pub open spec fn is_word(w: Seq<char>) -> bool {
    w.len() > 0 && forall|j: int| 0 <= j < w.len() ==> !is_whitespace(#[trigger] w[j])
}

/// Splitting a text that follows another looks only at the latter.
proof fn lemma_split_shift(a: Seq<char>, b: Seq<char>, k: int, cur: Seq<char>)
    requires
        0 <= k,
    ensures
        split_from(a + b, a.len() + k, cur) == split_from(b, k, cur),
    decreases b.len() - k,
{
    if k < b.len() {
        assert((a + b)[a.len() + k] == b[k]);
        if is_whitespace(b[k]) {
            lemma_split_shift(a, b, k + 1, Seq::empty());
        } else {
            lemma_split_shift(a, b, k + 1, cur.push(b[k]));
        }
    }
}

/// Only whitespace from `i` on: nothing but the pending token remains.
proof fn lemma_split_blank_rest(s: Seq<char>, i: int, cur: Seq<char>)
    requires
        0 <= i,
        forall|j: int| i <= j < s.len() ==> is_whitespace(#[trigger] s[j]),
    ensures
        split_from(s, i, cur) == pending(cur),
    decreases s.len() - i,
{
    if i < s.len() {
        lemma_split_blank_rest(s, i + 1, Seq::empty());
        assert(pending(cur) + pending(Seq::<char>::empty()) =~= pending(cur));
    }
}

/// Trailing whitespace adds no token.
proof fn lemma_split_trailing(x: Seq<char>, w: Seq<char>, i: int, cur: Seq<char>)
    requires
        all_whitespace(w),
        0 <= i <= x.len(),
    ensures
        split_from(x + w, i, cur) == split_from(x, i, cur),
    decreases x.len() - i,
{
    if i == x.len() {
        assert forall|j: int| i <= j < (x + w).len() implies is_whitespace(#[trigger] (x + w)[j]) by {
            assert((x + w)[j] == w[j - x.len()]);
        }
        lemma_split_blank_rest(x + w, i, cur);
    } else {
        assert((x + w)[i] == x[i]);
        if is_whitespace(x[i]) {
            lemma_split_trailing(x, w, i + 1, Seq::empty());
        } else {
            lemma_split_trailing(x, w, i + 1, cur.push(x[i]));
        }
    }
}

/// After a text that ends in whitespace, the tokens of what follows are
/// appended unchanged.
proof fn lemma_split_concat_from(a: Seq<char>, b: Seq<char>, i: int, cur: Seq<char>)
    requires
        0 <= i <= a.len(),
        i < a.len() ==> is_whitespace(a.last()),
        i == a.len() ==> cur.len() == 0,
    ensures
        split_from(a + b, i, cur) == split_from(a, i, cur) + split_from(b, 0, Seq::empty()),
    decreases a.len() - i,
{
    if i == a.len() {
        lemma_split_shift(a, b, 0, cur);
        assert(cur =~= Seq::<char>::empty());
        assert(pending(cur) + split_from(b, 0, Seq::empty()) =~= split_from(b, 0, Seq::empty()));
    } else {
        assert((a + b)[i] == a[i]);
        if is_whitespace(a[i]) {
            lemma_split_concat_from(a, b, i + 1, Seq::empty());
            assert(pending(cur) + split_from(a, i + 1, Seq::empty()) + split_from(b, 0, Seq::empty())
                =~= pending(cur) + (split_from(a, i + 1, Seq::empty()) + split_from(b, 0, Seq::empty())));
        } else {
            lemma_split_concat_from(a, b, i + 1, cur.push(a[i]));
        }
    }
}

/// Splitting `a + b` where `a` is empty or ends in whitespace.
pub proof fn lemma_split_concat(a: Seq<char>, b: Seq<char>)
    requires
        a.len() > 0 ==> is_whitespace(a.last()),
    ensures
        split_whitespace(a + b) == split_whitespace(a) + split_whitespace(b),
{
    lemma_split_concat_from(a, b, 0, Seq::empty());
}

/// Trailing whitespace adds no token.
pub proof fn lemma_split_trailing_blank(x: Seq<char>, w: Seq<char>)
    requires
        all_whitespace(w),
    ensures
        split_whitespace(x + w) == split_whitespace(x),
{
    lemma_split_trailing(x, w, 0, Seq::empty());
}

proof fn lemma_split_word_from(w: Seq<char>, i: int, cur: Seq<char>)
    requires
        0 <= i <= w.len(),
        forall|j: int| 0 <= j < w.len() ==> !is_whitespace(#[trigger] w[j]),
        cur.len() + w.len() - i > 0,
    ensures
        split_from(w, i, cur) == seq![cur + w.subrange(i, w.len() as int)],
    decreases w.len() - i,
{
    if i == w.len() {
        assert(cur + w.subrange(i, w.len() as int) =~= cur);
    } else {
        lemma_split_word_from(w, i + 1, cur.push(w[i]));
        assert(cur.push(w[i]) + w.subrange(i + 1, w.len() as int) =~= cur + w.subrange(i, w.len() as int));
    }
}

/// A word splits into itself.
pub proof fn lemma_split_word(w: Seq<char>)
    requires
        is_word(w),
    ensures
        split_whitespace(w) == seq![w],
{
    lemma_split_word_from(w, 0, Seq::empty());
    assert(Seq::<char>::empty() + w.subrange(0, w.len() as int) =~= w);
}

/// Joining with a separator, seen from the front.
pub proof fn lemma_join_front(a: Seq<char>, rest: Seq<Seq<char>>, sep: Seq<char>)
    requires
        rest.len() > 0,
    ensures
        join_with(seq![a] + rest, sep) == a + sep + join_with(rest, sep),
    decreases rest.len(),
{
    let all = seq![a] + rest;
    assert(all.drop_last() =~= seq![a] + rest.drop_last());
    assert(all.last() == rest.last());
    assert(join_with(all, sep) == join_with(all.drop_last(), sep) + sep + all.last());
    if rest.len() == 1 {
        assert(seq![a] + rest.drop_last() =~= seq![a]);
        assert(join_with(seq![a], sep) == a);
        assert(join_with(rest, sep) == rest[0]);
    } else {
        assert(join_with(rest, sep) == join_with(rest.drop_last(), sep) + sep + rest.last());
        lemma_join_front(a, rest.drop_last(), sep);
        assert(a + sep + join_with(rest.drop_last(), sep) + sep + rest.last() =~= a + sep + (
        join_with(rest.drop_last(), sep) + sep + rest.last()));
    }
}

/// Words joined by a whitespace separator split back into the words.
pub proof fn lemma_split_join(ws: Seq<Seq<char>>, sep: Seq<char>)
    requires
        ws.len() > 0,
        forall|k: int| 0 <= k < ws.len() ==> is_word(#[trigger] ws[k]),
        sep.len() > 0,
        all_whitespace(sep),
    ensures
        split_whitespace(join_with(ws, sep)) == ws,
    decreases ws.len(),
{
    if ws.len() == 1 {
        lemma_split_word(ws[0]);
        assert(seq![ws[0]] =~= ws);
    } else {
        let d = ws.drop_last();
        lemma_split_join(d, sep);
        let a = join_with(d, sep) + sep;
        assert(a.last() == sep.last());
        lemma_split_concat(a, ws.last());
        lemma_split_trailing_blank(join_with(d, sep), sep);
        lemma_split_word(ws.last());
        assert(d.push(ws.last()) =~= ws);
        assert(d + seq![ws.last()] =~= ws);
    }
}

/// Every character of `s` satisfies `p`.
pub open spec fn all_chars(s: Seq<char>, p: spec_fn(char) -> bool) -> bool {
    forall|j: int| 0 <= j < s.len() ==> p(#[trigger] s[j])
}

/// Joining keeps a property that every character of the parts and the
/// separator has.
pub proof fn lemma_join_chars(ws: Seq<Seq<char>>, sep: Seq<char>, p: spec_fn(char) -> bool)
    requires
        forall|k: int| 0 <= k < ws.len() ==> all_chars(#[trigger] ws[k], p),
        all_chars(sep, p),
    ensures
        all_chars(join_with(ws, sep), p),
    decreases ws.len(),
{
    if ws.len() > 1 {
        let d = ws.drop_last();
        lemma_join_chars(d, sep, p);
        let j1 = join_with(d, sep);
        let l = ws.last();
        assert(all_chars(l, p));
        assert forall|j: int| 0 <= j < (j1 + sep + l).len() implies p(#[trigger] (j1 + sep + l)[j]) by {
            if j < j1.len() {
                assert((j1 + sep + l)[j] == j1[j]);
            } else if j < j1.len() + sep.len() {
                assert((j1 + sep + l)[j] == sep[j - j1.len()]);
            } else {
                assert((j1 + sep + l)[j] == l[j - j1.len() - sep.len()]);
            }
        }
    } else if ws.len() == 1 {
        assert(all_chars(ws[0], p));
    }
}

/// Blanking punctuation splits over concatenation.
pub proof fn lemma_blank_concat(a: Seq<char>, b: Seq<char>)
    ensures
        blank_punctuation(a + b) == blank_punctuation(a) + blank_punctuation(b),
{
    assert(blank_punctuation(a + b) =~= blank_punctuation(a) + blank_punctuation(b));
}

/// Blanking the punctuation of parts without punctuation touches only the
/// separators.
pub proof fn lemma_blank_join(ws: Seq<Seq<char>>, sep: Seq<char>)
    requires
        forall|k: int| 0 <= k < ws.len() ==> blank_punctuation(#[trigger] ws[k]) == ws[k],
    ensures
        blank_punctuation(join_with(ws, sep)) == join_with(ws, blank_punctuation(sep)),
    decreases ws.len(),
{
    if ws.len() == 0 {
        assert(blank_punctuation(Seq::<char>::empty()) =~= Seq::<char>::empty());
    } else if ws.len() == 1 {
        assert(blank_punctuation(ws[0]) == ws[0]);
    } else {
        let d = ws.drop_last();
        lemma_blank_join(d, sep);
        lemma_blank_concat(join_with(d, sep) + sep, ws.last());
        lemma_blank_concat(join_with(d, sep), sep);
        assert(blank_punctuation(ws.last()) == ws.last());
    }
}


/// Whether `s` holds no line break.
pub open spec fn no_newline(s: Seq<char>) -> bool {
    forall|j: int| 0 <= j < s.len() ==> #[trigger] s[j] != '\n'
}

/// A non-empty line without a line break and without whitespace at
/// either end.
pub open spec fn is_trimmed_line(s: Seq<char>) -> bool {
    &&& s.len() > 0
    &&& !is_whitespace(s[0])
    &&& !is_whitespace(s.last())
    &&& no_newline(s)
}

/// The first character of a join is the first character of the first part.
pub proof fn lemma_join_first(ws: Seq<Seq<char>>, sep: Seq<char>)
    requires
        ws.len() > 0,
        ws[0].len() > 0,
    ensures
        join_with(ws, sep).len() > 0,
        join_with(ws, sep)[0] == ws[0][0],
    decreases ws.len(),
{
    if ws.len() > 1 {
        let d = ws.drop_last();
        assert(d[0] == ws[0]);
        lemma_join_first(d, sep);
        let j = join_with(d, sep);
        assert((j + sep + ws.last())[0] == j[0]);
    }
}

/// Lines of a text that follows another look only at the latter.
proof fn lemma_lines_shift(a: Seq<char>, b: Seq<char>, k: int, cur: Seq<char>)
    requires
        0 <= k,
    ensures
        lines_from(a + b, a.len() + k, cur) == lines_from(b, k, cur),
    decreases b.len() - k,
{
    if k < b.len() {
        assert((a + b)[a.len() + k] == b[k]);
        if b[k] == '\n' {
            lemma_lines_shift(a, b, k + 1, Seq::empty());
        } else {
            lemma_lines_shift(a, b, k + 1, cur.push(b[k]));
        }
    }
}

proof fn lemma_line_then_from(x: Seq<char>, b: Seq<char>, i: int)
    requires
        0 <= i <= x.len(),
        no_newline(x),
    ensures
        lines_from(x + "\n"@ + b, i, x.subrange(0, i)) == seq![x] + lines_from(
            x + "\n"@ + b,
            x.len() + 1int,
            Seq::empty(),
        ),
    decreases x.len() - i,
{
    reveal_strlit("\n");
    let s = x + "\n"@ + b;
    if i == x.len() {
        assert(s[i] == '\n');
        assert(x.subrange(0, i) =~= x);
    } else {
        assert(s[i] == x[i]);
        assert(x.subrange(0, i).push(x[i]) =~= x.subrange(0, i + 1));
        lemma_line_then_from(x, b, i + 1);
    }
}

/// A line without a break, then a break: the line, then the lines of
/// what follows.
pub proof fn lemma_line_then(x: Seq<char>, b: Seq<char>)
    requires
        no_newline(x),
    ensures
        lines_from(x + "\n"@ + b, 0, Seq::empty()) == seq![x] + lines_from(b, 0, Seq::empty()),
{
    reveal_strlit("\n");
    lemma_line_then_from(x, b, 0);
    assert(x.subrange(0, 0) =~= Seq::<char>::empty());
    lemma_lines_shift(x + "\n"@, b, 0, Seq::empty());
}

/// Lines joined by breaks, with a final break, split back into the lines
/// and one empty line after them.
pub proof fn lemma_lines_of_join(ss: Seq<Seq<char>>)
    requires
        ss.len() > 0,
        forall|k: int| 0 <= k < ss.len() ==> no_newline(#[trigger] ss[k]),
    ensures
        lines_from(join_with(ss, "\n"@) + "\n"@, 0, Seq::empty()) == ss.push(Seq::<char>::empty()),
    decreases ss.len(),
{
    reveal_strlit("\n");
    let e = Seq::<char>::empty();
    if ss.len() == 1 {
        assert(no_newline(ss[0]));
        lemma_line_then(ss[0], e);
        assert(ss[0] + "\n"@ + e =~= join_with(ss, "\n"@) + "\n"@);
        assert(seq![ss[0]] + seq![e] =~= ss.push(e));
    } else {
        let rest = ss.drop_first();
        assert(seq![ss[0]] + rest =~= ss);
        lemma_join_front(ss[0], rest, "\n"@);
        let jr = join_with(rest, "\n"@);
        assert(join_with(ss, "\n"@) + "\n"@ =~= ss[0] + "\n"@ + (jr + "\n"@));
        assert(no_newline(ss[0]));
        lemma_line_then(ss[0], jr + "\n"@);
        assert forall|k: int| 0 <= k < rest.len() implies no_newline(#[trigger] rest[k]) by {
            assert(rest[k] == ss[k + 1]);
        }
        lemma_lines_of_join(rest);
        assert(seq![ss[0]] + rest.push(e) =~= ss.push(e));
    }
}

/// Keeping the non-blank lines distributes over concatenation.
proof fn lemma_kept_concat(a: Seq<Seq<char>>, b: Seq<Seq<char>>)
    ensures
        kept_lines(a + b) == kept_lines(a) + kept_lines(b),
    decreases a.len(),
{
    if a.len() == 0 {
        assert(a + b =~= b);
        assert(kept_lines(a) + kept_lines(b) =~= kept_lines(b));
    } else {
        assert((a + b).drop_first() =~= a.drop_first() + b);
        assert((a + b)[0] == a[0]);
        lemma_kept_concat(a.drop_first(), b);
        let t = seq![trim(a[0])];
        assert(t + (kept_lines(a.drop_first()) + kept_lines(b)) =~= t + kept_lines(a.drop_first())
            + kept_lines(b));
    }
}

/// A trimmed line is its own trimmed form.
proof fn lemma_trim_trimmed(s: Seq<char>)
    requires
        is_trimmed_line(s),
    ensures
        trim(s) == s,
{
    assert(trim_start(s) == s);
    assert(trim_end(s) == s);
}

/// Trimmed lines are all kept, unchanged.
proof fn lemma_kept_trimmed(ss: Seq<Seq<char>>)
    requires
        forall|k: int| 0 <= k < ss.len() ==> is_trimmed_line(#[trigger] ss[k]),
    ensures
        kept_lines(ss) == ss,
    decreases ss.len(),
{
    if ss.len() > 0 {
        assert(is_trimmed_line(ss[0]));
        lemma_trim_trimmed(ss[0]);
        let rest = ss.drop_first();
        assert forall|k: int| 0 <= k < rest.len() implies is_trimmed_line(#[trigger] rest[k]) by {
            assert(rest[k] == ss[k + 1]);
        }
        lemma_kept_trimmed(rest);
        assert(seq![ss[0]] + rest =~= ss);
    }
}

/// Trimmed lines, each on a line of its own between line breaks, are the
/// non-blank lines of that text.
pub proof fn lemma_nonblank_lines_join(ss: Seq<Seq<char>>)
    requires
        ss.len() > 0,
        forall|k: int| 0 <= k < ss.len() ==> is_trimmed_line(#[trigger] ss[k]),
    ensures
        nonblank_lines("\n"@ + join_with(ss, "\n"@) + "\n"@) == ss,
{
    reveal_strlit("\n");
    let e = Seq::<char>::empty();
    let j = join_with(ss, "\n"@);
    assert forall|k: int| 0 <= k < ss.len() implies no_newline(#[trigger] ss[k]) by {
        assert(is_trimmed_line(ss[k]));
    }
    lemma_lines_of_join(ss);
    assert("\n"@ + j + "\n"@ =~= e + "\n"@ + (j + "\n"@));
    lemma_line_then(e, j + "\n"@);
    let one = seq![e];
    assert(seq![e] + ss.push(e) =~= one + (ss + one));
    lemma_kept_concat(one, ss + one);
    lemma_kept_concat(ss, one);
    assert(trim_start(e) == e);
    assert(trim(e) == e);
    assert(one.drop_first() =~= Seq::<Seq<char>>::empty());
    assert(kept_lines(one) == kept_lines(one.drop_first()));
    assert(kept_lines(one) =~= Seq::<Seq<char>>::empty());
    lemma_kept_trimmed(ss);
    assert(kept_lines(one) + (ss + kept_lines(one)) =~= ss);
}

} // verus!
