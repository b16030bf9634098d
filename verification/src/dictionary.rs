//! Word dictionary for the transport codec: word indices rendered as
//! natural-looking sentences and parsed back.
//!
//! The built-in dictionary is the BIP-39 English wordlist: 2048 words, i.e.
//! 11 bits per word.
use vstd::prelude::*;
use vstd::string::*;
use vstd::std_specs::bits::u16_trailing_zeros;
use crate::bip39_english::{bip39_english_word, english_word};
use crate::error::{TransportError, TransportErrorView, tview};
use crate::text::{all_chars, ascii_lower, ascii_lowered, blank_punctuation, blank_punctuation_vec, is_ascii_text, is_punctuation, is_whitespace, is_word, join_strings, join_with, lemma_blank_concat, lemma_blank_join, lemma_join_chars, lemma_join_first, lemma_join_front, lemma_lowered_concat, lemma_lowered_join, lemma_split_concat, lemma_split_join, lemma_split_trailing_blank, lowercase, lowercase_text, split_whitespace, split_whitespace_vec, str_chars, string_texts};
use crate::util::{decimal, u64_to_decimal};

verus! {

/// Number of words in a dictionary.
pub const DICTIONARY_SIZE: usize = 2048;

/// Sentence lengths (in words) used when rendering, in rotation.
pub open spec fn sentence_len(k: nat) -> nat {
    let r = k % 4;
    if r == 0 { 6 } else if r == 1 { 8 } else if r == 2 { 10 } else { 12 }
}

/// A source of words indexed by `0..size()`.
pub trait WordDictionary {
    /// The number of words.
    spec fn spec_size(&self) -> u16;

    /// Whether the dictionary is usable.
    spec fn well_formed(&self) -> bool;

    /// The word at `index`, or `InvalidIndex`.
    fn word_at(&self, index: u16) -> (r: Result<&str, TransportError>)
        requires
            self.well_formed(),
        ensures
            r is Err <==> index >= self.spec_size(),
            r matches Err(e) ==> e@ == TransportErrorView::InvalidIndex(index);

    /// The index of exactly `word`, or `UnknownWord`.
    fn index_of(&self, word: &str) -> (r: Result<u16, TransportError>)
        requires
            self.well_formed(),
        ensures
            r matches Ok(i) ==> i < self.spec_size(),
            r matches Err(e) ==> e@ == TransportErrorView::UnknownWord(word@);

    /// The number of words.
    fn size(&self) -> (s: u16)
        ensures
            s == self.spec_size();

    /// Bits encoded per word: `log2(size)`.
    fn bits_per_word(&self) -> (b: u8)
        ensures
            b == u16_trailing_zeros(self.spec_size()),
    {
        let t = self.size().trailing_zeros();
        proof {
            vstd::std_specs::bits::axiom_u16_trailing_zeros(self.spec_size());
        }
        t as u8
    }
}

/// 2048 words carry 11 bits each.
pub proof fn lemma_bits_per_word_2048()
    ensures
        u16_trailing_zeros(2048) == 11,
{
    vstd::std_specs::bits::axiom_u16_trailing_zeros(2048);
    let t = u16_trailing_zeros(2048);
    assert(forall|j: u16| j < 16 ==> (((2048u16 >> j) & 1u16 == 1u16) <==> j == 11)) by (bit_vector);
    if t != 11 {
        if t < 11 {
            assert((2048u16 >> (t as u16)) & 1u16 == 1u16);
        } else {
            assert((2048u16 >> 11u16) & 1u16 == 0u16);
        }
    }
}

/// A 2048-word dictionary. Lookups are by the lower-case form of a word.
#[derive(Debug, Clone)]
pub struct Bip39Dictionary {
    words: Vec<String>,
    lower_words: Vec<String>,
}

/// The index of the first entry of `list` equal to `w`, if any.
pub open spec fn find_word(list: Seq<Seq<char>>, w: Seq<char>) -> Option<nat>
    decreases list.len(),
{
    if list.len() == 0 {
        None
    } else {
        match find_word(list.drop_last(), w) {
            Some(i) => Some(i),
            None => if list.last() == w {
                Some((list.len() - 1) as nat)
            } else {
                None
            },
        }
    }
}

/// The index of the first entry whose lower-case form equals that of an
/// earlier entry, if any.
pub open spec fn first_duplicate(lower: Seq<Seq<char>>) -> Option<nat>
    decreases lower.len(),
{
    if lower.len() == 0 {
        None
    } else {
        match first_duplicate(lower.drop_last()) {
            Some(i) => Some(i),
            None => if find_word(lower.drop_last(), lower.last()) is Some {
                Some((lower.len() - 1) as nat)
            } else {
                None
            },
        }
    }
}

/// The BIP-39 English words as texts.
pub open spec fn english_list() -> Seq<Seq<char>> {
    Seq::new(2048, |i: int| bip39_english_word(i as usize))
}

/// The text of each string in `s`.
pub open spec fn texts(s: Seq<String>) -> Seq<Seq<char>> {
    s.map_values(|w: String| w@)
}

/// The lower-case forms of `s`.
pub open spec fn lowered(s: Seq<Seq<char>>) -> Seq<Seq<char>> {
    s.map_values(|w: Seq<char>| lowercase(w))
}

/// What [`Bip39Dictionary::new`] yields for a word list.
pub open spec fn spec_dictionary_new(words: Seq<Seq<char>>) -> Result<Seq<Seq<char>>, TransportErrorView> {
    if words.len() != 2048 {
        Err(
            TransportErrorView::InvalidDictionary(
                "Expected 2048 words, got "@ + decimal(words.len()),
            ),
        )
    } else {
        match first_duplicate(lowered(words)) {
            Some(i) => Err(TransportErrorView::InvalidDictionary("Duplicate word: "@ + words[i as int])),
            None => Ok(words),
        }
    }
}

/// The words selected by `indices`, in order.
pub open spec fn selected_words(words: Seq<Seq<char>>, indices: Seq<u16>) -> Seq<Seq<char>> {
    indices.map_values(|i: u16| words[i as int])
}

/// The sentences of `ws`, starting with sentence length number `k`: the
/// first `sentence_len(k)` words joined by single spaces, then the rest.
pub open spec fn sentences(ws: Seq<Seq<char>>, k: nat) -> Seq<Seq<char>>
    decreases ws.len(),
{
    if ws.len() == 0 {
        Seq::empty()
    } else {
        let len = if sentence_len(k) <= ws.len() { sentence_len(k) } else { ws.len() };
        seq![join_with(ws.take(len as int), " "@)] + sentences(ws.skip(len as int), k + 1)
    }
}

/// What [`Bip39Dictionary::to_natural_sentence`] yields for the words `ws`.
pub open spec fn render_sentences(ws: Seq<Seq<char>>) -> Seq<char> {
    if ws.len() == 0 {
        Seq::empty()
    } else {
        join_with(sentences(ws, 0), ". "@) + "."@
    }
}

/// Looks up each token in `lower`, stopping at the first unknown one.
pub open spec fn lookup_tokens(lower: Seq<Seq<char>>, toks: Seq<Seq<char>>) -> Result<Seq<u16>, TransportErrorView>
    decreases toks.len(),
{
    if toks.len() == 0 {
        Ok(Seq::empty())
    } else {
        match find_word(lower, toks[0]) {
            None => Err(TransportErrorView::UnknownWord(toks[0])),
            Some(i) => match lookup_tokens(lower, toks.drop_first()) {
                Ok(rest) => Ok(seq![i as u16] + rest),
                Err(e) => Err(e),
            },
        }
    }
}

/// The words of a sentence: lower-cased, with `. , ! ?` read as spaces,
/// split at whitespace.
pub open spec fn sentence_tokens(sentence: Seq<char>) -> Seq<Seq<char>> {
    split_whitespace(blank_punctuation(lowercase(sentence)))
}

impl Bip39Dictionary {
    /// Well-formedness: 2048 words and their lower-case forms.
    pub closed spec fn wf(&self) -> bool {
        &&& self.words@.len() == 2048
        &&& self.lower_words@.len() == 2048
        &&& texts(self.lower_words@) == lowered(texts(self.words@))
    }

    /// The words, in index order.
    pub closed spec fn word_list(&self) -> Seq<Seq<char>> {
        texts(self.words@)
    }

    /// The lower-case forms of the words, in index order.
    pub closed spec fn lower_list(&self) -> Seq<Seq<char>> {
        texts(self.lower_words@)
    }

    /// A well-formed dictionary holds 2048 words, looked up by their
    /// lower-case forms.
    pub proof fn lemma_shape(&self)
        requires
            self.wf(),
        ensures
            self.word_list().len() == 2048,
            self.lower_list() == lowered(self.word_list()),
    {
    }

    /// Builds a dictionary from a custom word list, which must hold exactly
    /// 2048 words that are distinct after lower-casing.
    pub fn new(word_list: Vec<String>) -> (r: Result<Self, TransportError>)
        ensures
            match (r, spec_dictionary_new(texts(word_list@))) {
                (Ok(d), Ok(ws)) => d.word_list() == ws && d.wf(),
                (Err(e), Err(ev)) => e@ == ev,
                _ => false,
            },
    {
        if word_list.len() != DICTIONARY_SIZE {
            let mut m = String::from_str("Expected 2048 words, got ");
            m.append(u64_to_decimal(word_list.len() as u64).as_str());
            return Err(TransportError::InvalidDictionary(m));
        }
        let ghost ws = texts(word_list@);
        let mut lower_words: Vec<String> = Vec::with_capacity(DICTIONARY_SIZE);
        let mut i: usize = 0;
        while i < word_list.len()
            invariant
                ws == texts(word_list@),
                ws.len() == 2048,
                0 <= i <= 2048,
                texts(lower_words@) == lowered(ws.subrange(0, i as int)),
                first_duplicate(lowered(ws.subrange(0, i as int))) is None,
            decreases 2048 - i,
        {
            let lw = lowercase_text(word_list[i].as_str());
            let found = find_string(&lower_words, &lw);
            proof {
                let pre = lowered(ws.subrange(0, i + 1));
                assert(pre.drop_last() =~= lowered(ws.subrange(0, i as int)));
                assert(pre.last() == lw@);
            }
            if found.is_some() {
                proof {
                    assert(lowered(ws).subrange(0, i + 1) =~= lowered(ws.subrange(0, i + 1)));
                    assert(lowered(ws).subrange(0, i as int) =~= lowered(ws.subrange(0, i as int)));
                    lemma_first_duplicate_prefix(lowered(ws), (i + 1) as nat);
                    lemma_first_duplicate_extend(lowered(ws), (i + 1) as nat, 2048);
                    assert(lowered(ws).subrange(0, 2048) =~= lowered(ws));
                }
                let mut m = String::from_str("Duplicate word: ");
                m.append(word_list[i].as_str());
                return Err(TransportError::InvalidDictionary(m));
            }
            let ghost before = texts(lower_words@);
            let ghost lwv = lw@;
            lower_words.push(lw);
            i = i + 1;
            proof {
                assert(texts(lower_words@) =~= before.push(lwv));
                assert(lowered(ws.subrange(0, i as int)) =~= lowered(ws.subrange(0, i - 1)).push(
                    lowercase(ws[i - 1]),
                ));
            }
        }
        proof {
            assert(ws.subrange(0, 2048) =~= ws);
        }
        Ok(Bip39Dictionary { words: word_list, lower_words })
    }

    /// The words, in index order.
    pub fn words(&self) -> (r: &Vec<String>)
        ensures
            texts(r@) == self.word_list(),
    {
        &self.words
    }

    /// The BIP-39 English dictionary: 2048 words of the letters `a`–`z`,
    /// pairwise distinct, so a clean dictionary.
    pub fn english() -> (d: Self)
        ensures
            d.word_list() == english_list(),
            d.wf(),
            clean_dictionary(d.word_list()),
            forall|k: int| 0 <= k < d.word_list().len() ==> is_lower_word(#[trigger] d.word_list()[k]),
    {
        let ghost list = english_list();
        let mut words: Vec<String> = Vec::with_capacity(DICTIONARY_SIZE);
        let mut lower_words: Vec<String> = Vec::with_capacity(DICTIONARY_SIZE);
        let mut i: usize = 0;
        while i < DICTIONARY_SIZE
            invariant
                list == english_list(),
                list.len() == 2048,
                0 <= i <= 2048,
                texts(words@) == list.subrange(0, i as int),
                texts(lower_words@) == lowered(list.subrange(0, i as int)),
                forall|k: int| 0 <= k < i ==> is_lower_word(#[trigger] list[k]),
                forall|k: int, j: int| 0 <= k < i && 0 <= j < 2048 && j != k ==> #[trigger] list[j] != #[trigger] list[k],
            decreases 2048 - i,
        {
            let w: &str = english_word(i);
            proof {
                assert(list[i as int] == w@);
                assert forall|j: int| 0 <= j < 2048 && j != i implies #[trigger] list[j] != list[i as int] by {
                    assert(list[j] == bip39_english_word(j as usize));
                }
            }
            let ghost before_w = texts(words@);
            let ghost before_l = texts(lower_words@);
            let ws = String::from_str(w);
            let lw = lowercase_text(w);
            let ghost wv = ws@;
            let ghost lwv = lw@;
            words.push(ws);
            lower_words.push(lw);
            i = i + 1;
            proof {
                assert(list[i - 1] == w@);
                assert(texts(words@) =~= before_w.push(wv));
                assert(texts(lower_words@) =~= before_l.push(lwv));
                assert(list.subrange(0, i as int) =~= list.subrange(0, i - 1).push(list[i - 1]));
                assert(lowered(list.subrange(0, i as int)) =~= lowered(list.subrange(0, i - 1)).push(
                    lowercase(list[i - 1]),
                ));
                assert(texts(words@) =~= list.subrange(0, i as int));
                assert(texts(lower_words@) =~= lowered(list.subrange(0, i as int)));
            }
        }
        proof {
            assert(list.subrange(0, 2048) =~= list);
            lemma_lower_words_clean(list);
        }
        Bip39Dictionary { words, lower_words }
    }

    /// Renders word indices as sentences: groups of 6, 8, 10 and 12 words
    /// (in rotation) joined by spaces, the groups joined by ". ", and a
    /// final ".". No indices render as the empty string.
    pub fn to_natural_sentence(&self, encoded: &[u16]) -> (s: String)
        requires
            self.wf(),
            forall|k: int| 0 <= k < encoded@.len() ==> #[trigger] encoded@[k] < 2048,
        ensures
            s@ == render_sentences(selected_words(self.word_list(), encoded@)),
    {
        let ghost ws = selected_words(self.word_list(), encoded@);
        if encoded.len() == 0 {
            return String::new();
        }
        let n = encoded.len();
        let mut parts: Vec<String> = Vec::new();
        let mut pos: usize = 0;
        let mut len_idx: usize = 0;
        proof {
            assert(ws.skip(0) =~= ws);
            assert(texts(parts@) + sentences(ws, 0) =~= sentences(ws, 0));
        }
        while pos < n
            invariant
                n == encoded@.len(),
                self.wf(),
                ws == selected_words(self.word_list(), encoded@),
                ws.len() == n,
                self.words@.len() == 2048,
                forall|k: int| 0 <= k < encoded@.len() ==> #[trigger] encoded@[k] < 2048,
                0 <= pos <= n,
                len_idx <= pos,
                texts(parts@) + sentences(ws.skip(pos as int), len_idx as nat) == sentences(ws, 0),
            decreases n - pos,
        {
            let cycle: usize = if len_idx % 4 == 0 {
                6
            } else if len_idx % 4 == 1 {
                8
            } else if len_idx % 4 == 2 {
                10
            } else {
                12
            };
            let len = if cycle <= n - pos { cycle } else { n - pos };
            let sentence = self.join_words(encoded, pos, len);
            proof {
                let rest = ws.skip(pos as int);
                assert(rest.take(len as int) =~= ws.subrange(pos as int, pos + len));
                assert(rest.skip(len as int) =~= ws.skip(pos + len));
                assert(sentence_len(len_idx as nat) == cycle);
            }
            let ghost before = texts(parts@);
            let ghost sv = sentence@;
            parts.push(sentence);
            proof {
                let rest = ws.skip(pos as int);
                assert(texts(parts@) =~= before.push(sv));
                assert(sentences(rest, len_idx as nat) == seq![sv] + sentences(ws.skip(pos + len), (len_idx + 1) as nat));
                assert(texts(parts@) + sentences(ws.skip(pos + len), (len_idx + 1) as nat) =~= before + sentences(rest, len_idx as nat));
            }
            pos = pos + len;
            len_idx = len_idx + 1;
        }
        proof {
            assert(ws.skip(n as int) =~= Seq::<Seq<char>>::empty());
            assert(texts(parts@) =~= sentences(ws, 0));
        }
        let mut out = join_strings(&parts, ". ");
        out.append(".");
        out
    }

    /// The words at `encoded[pos..pos + len]`, joined by single spaces.
    fn join_words(&self, encoded: &[u16], pos: usize, len: usize) -> (sentence: String)
        requires
            self.wf(),
            pos + len <= encoded@.len(),
            forall|k: int| 0 <= k < encoded@.len() ==> #[trigger] encoded@[k] < 2048,
        ensures
            sentence@ == join_with(
                selected_words(self.word_list(), encoded@).subrange(pos as int, pos + len),
                " "@,
            ),
    {
        let ghost ws = selected_words(self.word_list(), encoded@);
        let total_len = encoded.len();
        let mut sentence = String::new();
        let mut j: usize = 0;
        while j < len
            invariant
                total_len == encoded@.len(),
                ws == selected_words(self.word_list(), encoded@),
                ws.len() == encoded@.len(),
                self.words@.len() == 2048,
                forall|k: int| 0 <= k < encoded@.len() ==> #[trigger] encoded@[k] < 2048,
                pos + len <= encoded@.len(),
                0 <= j <= len,
                sentence@ == join_with(ws.subrange(pos as int, pos + j), " "@),
            decreases len - j,
        {
            let idx = encoded[pos + j] as usize;
            if j > 0 {
                sentence.append(" ");
            }
            sentence.append(self.words[idx].as_str());
            proof {
                let sub = ws.subrange(pos as int, pos + j + 1);
                assert(sub.drop_last() =~= ws.subrange(pos as int, pos + j));
                assert(sub.last() == self.words@[idx as int]@);
                if j == 0 {
                    assert(ws.subrange(pos as int, pos + j) =~= Seq::<Seq<char>>::empty());
                    assert(join_with(Seq::<Seq<char>>::empty(), " "@) == Seq::<char>::empty());
                    assert(sentence@ =~= sub.last());
                }
            }
            j = j + 1;
        }
        sentence
    }

    /// Parses sentences back into word indices. Unknown words are an error.
    pub fn from_natural_sentence(&self, sentence: &str) -> (r: Result<Vec<u16>, TransportError>)
        requires
            self.wf(),
        ensures
            tview(r) == lookup_tokens(self.lower_list(), sentence_tokens(sentence@)),
    {
        let lower = lowercase_text(sentence);
        let chars = str_chars(lower.as_str());
        let cleaned = blank_punctuation_vec(&chars);
        let tokens = split_whitespace_vec(&cleaned);
        let ghost toks = sentence_tokens(sentence@);
        assert(texts(tokens@) == toks);
        let mut out: Vec<u16> = Vec::new();
        let mut i: usize = 0;
        proof {
            assert(toks.skip(0) =~= toks);
            match lookup_tokens(self.lower_list(), toks) {
                Ok(rest) => {
                    assert(out@ + rest =~= rest);
                },
                Err(_) => {},
            }
        }
        while i < tokens.len()
            invariant
                toks == texts(tokens@),
                toks == sentence_tokens(sentence@),
                self.lower_words@.len() == 2048,
                0 <= i <= toks.len(),
                lookup_tokens(self.lower_list(), toks) == (match lookup_tokens(
                    self.lower_list(),
                    toks.skip(i as int),
                ) {
                    Ok(rest) => Ok(out@ + rest),
                    Err(e) => Err(e),
                }),
            decreases toks.len() - i,
        {
            let found = find_string(&self.lower_words, &tokens[i]);
            proof {
                let rest = toks.skip(i as int);
                assert(rest[0] == toks[i as int]);
                assert(rest.drop_first() =~= toks.skip(i + 1));
            }
            match found {
                None => {
                    proof {
                        assert(toks[i as int] == tokens@[i as int]@);
                        assert(lookup_tokens(self.lower_list(), toks.skip(i as int)) == Err::<Seq<u16>, TransportErrorView>(TransportErrorView::UnknownWord(toks[i as int])));
                    }
                    let w = tokens[i].clone();
                    assert(w@ == toks[i as int]);
                    let e = TransportError::UnknownWord(w);
                    assert(e@ == TransportErrorView::UnknownWord(toks[i as int]));
                    let r: Result<Vec<u16>, TransportError> = Err(e);
                    assert(tview(r) == lookup_tokens(self.lower_list(), toks));
                    assert(toks == sentence_tokens(sentence@));
                    return r;
                },
                Some(k) => {
                    proof {
                        match lookup_tokens(self.lower_list(), toks.skip(i + 1)) {
                            Ok(rest) => {
                                assert(out@.push(k as u16) + rest =~= out@ + (seq![k as u16] + rest));
                            },
                            Err(_) => {},
                        }
                    }
                    out.push(k as u16);
                },
            }
            i = i + 1;
        }
        proof {
            assert(toks.skip(toks.len() as int) =~= Seq::<Seq<char>>::empty());
            assert(out@ + Seq::<u16>::empty() =~= out@);
        }
        Ok(out)
    }
}

proof fn lemma_first_duplicate_prefix(lower: Seq<Seq<char>>, k: nat)
    requires
        0 < k <= lower.len(),
        first_duplicate(lower.subrange(0, k - 1)) is None,
        find_word(lower.subrange(0, k - 1), lower[k - 1]) is Some,
    ensures
        first_duplicate(lower.subrange(0, k as int)) == Some((k - 1) as nat),
{
    let p = lower.subrange(0, k as int);
    assert(p.drop_last() =~= lower.subrange(0, k - 1));
}

impl WordDictionary for Bip39Dictionary {
    open spec fn spec_size(&self) -> u16 {
        2048
    }

    open spec fn well_formed(&self) -> bool {
        self.wf()
    }

    fn word_at(&self, index: u16) -> (r: Result<&str, TransportError>)
        ensures
            r matches Ok(w) ==> w@ == self.word_list()[index as int],
    {
        if (index as usize) < self.words.len() {
            Ok(self.words[index as usize].as_str())
        } else {
            Err(TransportError::InvalidIndex(index))
        }
    }

    fn index_of(&self, word: &str) -> (r: Result<u16, TransportError>)
        ensures
            r is Ok <==> find_word(self.lower_list(), word@) is Some,
            r matches Ok(i) ==> find_word(self.lower_list(), word@) == Some(i as nat),
    {
        let w = String::from_str(word);
        match find_string(&self.lower_words, &w) {
            Some(i) => Ok(i as u16),
            None => Err(TransportError::UnknownWord(w)),
        }
    }

    fn size(&self) -> (s: u16) {
        2048
    }
}

/// The position of the first string of `list` equal to `w`.
fn find_string(list: &Vec<String>, w: &String) -> (r: Option<usize>)
    ensures
        match r {
            Some(i) => find_word(texts(list@), w@) == Some(i as nat) && i < list@.len(),
            None => find_word(texts(list@), w@) is None,
        },
{
    let ghost l = texts(list@);
    let mut i: usize = 0;
    while i < list.len()
        invariant
            l == texts(list@),
            0 <= i <= l.len(),
            find_word(l.subrange(0, i as int), w@) is None,
        decreases l.len() - i,
    {
        let hit = list[i] == *w;
        proof {
            let p = l.subrange(0, i + 1);
            assert(p.drop_last() =~= l.subrange(0, i as int));
            assert(p.last() == list@[i as int]@);
        }
        if hit {
            proof {
                lemma_find_word_prefix(l, (i + 1) as nat, w@);
            }
            return Some(i);
        }
        i = i + 1;
    }
    proof {
        assert(l.subrange(0, l.len() as int) =~= l);
    }
    None
}

proof fn lemma_find_word_extend(l: Seq<Seq<char>>, k: nat, m: nat, w: Seq<char>)
    requires
        0 < k <= m <= l.len(),
        find_word(l.subrange(0, k as int), w) == Some((k - 1) as nat),
    ensures
        find_word(l.subrange(0, m as int), w) == Some((k - 1) as nat),
    decreases m - k,
{
    if m > k {
        lemma_find_word_extend(l, k, (m - 1) as nat, w);
        let p = l.subrange(0, m as int);
        assert(p.drop_last() =~= l.subrange(0, m - 1));
    }
}

proof fn lemma_find_word_prefix(l: Seq<Seq<char>>, k: nat, w: Seq<char>)
    requires
        0 < k <= l.len(),
        find_word(l.subrange(0, k as int), w) == Some((k - 1) as nat),
    ensures
        find_word(l, w) == Some((k - 1) as nat),
{
    lemma_find_word_extend(l, k, l.len(), w);
    assert(l.subrange(0, l.len() as int) =~= l);
}

proof fn lemma_first_duplicate_extend(l: Seq<Seq<char>>, k: nat, m: nat)
    requires
        0 < k <= m <= l.len(),
        first_duplicate(l.subrange(0, k as int)) == Some((k - 1) as nat),
    ensures
        first_duplicate(l.subrange(0, m as int)) == Some((k - 1) as nat),
    decreases m - k,
{
    if m > k {
        lemma_first_duplicate_extend(l, k, (m - 1) as nat);
        let p = l.subrange(0, m as int);
        assert(p.drop_last() =~= l.subrange(0, m - 1));
    }
}

// ---------------------------------------------------------------------------
// Rendering and parsing undo each other
// ---------------------------------------------------------------------------

/// A character that can stand in a word that parses back as itself: ASCII,
/// neither whitespace nor one of `. , ! ?`.
pub open spec fn is_token_char(c: char) -> bool {
    &&& (c as u32) < 128
    &&& !is_whitespace(c)
    &&& !is_punctuation(c)
}

/// A clean word: non-empty, of ASCII characters that are neither
/// whitespace nor `. , ! ?`.
pub open spec fn is_clean_word(w: Seq<char>) -> bool {
    w.len() > 0 && forall|j: int| 0 <= j < w.len() ==> is_token_char(#[trigger] w[j])
}

/// A clean dictionary: clean words, pairwise distinct after lower-casing
/// (which [`Bip39Dictionary::new`] checks).
pub open spec fn clean_dictionary(words: Seq<Seq<char>>) -> bool {
    &&& forall|k: int| 0 <= k < words.len() ==> is_clean_word(#[trigger] words[k])
    &&& forall|a: int, b: int| 0 <= a < b < words.len() ==> #[trigger] lowered(words)[a] != #[trigger] lowered(words)[b]
}

/// Sentences run 6, 8, 10 and 12 words long in rotation: sentence number
/// `k` takes `6 + 2 (k mod 4)` words, or all that remain where fewer do.
pub proof fn lemma_sentence_lengths(ws: Seq<Seq<char>>, k: nat)
    ensures
        sentence_len(k) == 6 + 2 * (k % 4),
        ws.len() > 0 ==> {
            let g: int = if 6 + 2 * (k % 4) <= ws.len() { (6 + 2 * (k % 4)) as int } else { ws.len() as int };
            sentences(ws, k) == seq![join_with(ws.take(g), " "@)] + sentences(ws.skip(g), k + 1)
        },
{
}

/// Every punctuation mark `.`, `,`, `!` and `?` in a sentence of ASCII
/// text separates words like a space: replacing one by a space leaves the
/// words read from the sentence unchanged.
pub proof fn lemma_punctuation_separates(s: Seq<char>, i: int)
    requires
        0 <= i < s.len(),
        is_ascii_text(s),
        s[i] == '.' || s[i] == ',' || s[i] == '!' || s[i] == '?',
    ensures
        sentence_tokens(s) == sentence_tokens(s.update(i, ' ')),
        blank_punctuation(s)[i] == ' ',
{
    let t = s.update(i, ' ');
    assert(is_ascii_text(t)) by {
        assert forall|j: int| 0 <= j < t.len() implies (#[trigger] t[j] as u32) < 128 by {
            if j != i {
                assert(t[j] == s[j]);
            }
        }
    }
    let ls = ascii_lowered(s);
    let lt = ascii_lowered(t);
    assert(lt =~= ls.update(i, ' '));
    assert(ls[i] == s[i]);
    assert(blank_punctuation(lt) =~= blank_punctuation(ls));
}

/// A non-empty run of the letters `a`–`z`.
pub open spec fn is_lower_word(w: Seq<char>) -> bool {
    w.len() > 0 && forall|j: int| 0 <= j < w.len() ==> 'a' <= #[trigger] w[j] && w[j] <= 'z'
}

/// A word of the letters `a`–`z` is clean and its own lower-case form.
pub proof fn lemma_lower_word(w: Seq<char>)
    requires
        is_lower_word(w),
    ensures
        is_clean_word(w),
        lowercase(w) == w,
{
    assert forall|j: int| 0 <= j < w.len() implies is_token_char(#[trigger] w[j]) by {
        assert('a' <= w[j] && w[j] <= 'z');
    }
    lemma_lowered_clean_word(w);
    assert(ascii_lowered(w) =~= w);
}

/// Distinct words of the letters `a`–`z` make a clean dictionary.
proof fn lemma_lower_words_clean(list: Seq<Seq<char>>)
    requires
        forall|k: int| 0 <= k < list.len() ==> is_lower_word(#[trigger] list[k]),
        forall|k: int, j: int| 0 <= k < list.len() && 0 <= j < list.len() && j != k ==> #[trigger] list[j] != #[trigger] list[k],
    ensures
        clean_dictionary(list),
{
    assert forall|k: int| 0 <= k < list.len() implies is_clean_word(#[trigger] list[k]) && #[trigger] lowered(list)[k] == list[k] by {
        lemma_lower_word(list[k]);
    }
    assert forall|a: int, b: int| 0 <= a < b < list.len() implies #[trigger] lowered(list)[a] != #[trigger] lowered(list)[b] by {
        lemma_lower_word(list[a]);
        lemma_lower_word(list[b]);
    }
}

/// Characters of a sentence: word characters and spaces.
pub open spec fn sentence_char() -> spec_fn(char) -> bool {
    |c: char| is_token_char(c) || c == ' '
}

/// Characters of rendered text: word characters, spaces and full stops.
pub open spec fn rendered_char() -> spec_fn(char) -> bool {
    |c: char| is_token_char(c) || c == ' ' || c == '.'
}

/// Lowering keeps a word clean.
proof fn lemma_lowered_clean_word(w: Seq<char>)
    requires
        is_clean_word(w),
    ensures
        is_clean_word(ascii_lowered(w)),
        lowercase(w) == ascii_lowered(w),
{
    let l = ascii_lowered(w);
    assert forall|j: int| 0 <= j < l.len() implies is_token_char(#[trigger] l[j]) by {
        let c = w[j];
        assert(is_token_char(c));
        assert(l[j] == ascii_lower(c));
        let u = c as u32;
        if 65 <= u && u <= 90 {
            let d = ((u + 32) as u8) as char;
            assert(d as u32 == u + 32);
        }
    }
    assert(is_ascii_text(w)) by {
        assert forall|i: int| 0 <= i < w.len() implies (#[trigger] w[i] as u32) < 128 by {
            assert(is_token_char(w[i]));
        }
    }
}

/// The sentences of lowered words are the lowered sentences.
proof fn lemma_lowered_sentences(ws: Seq<Seq<char>>, k: nat)
    ensures
        sentences(ws, k).map_values(|s: Seq<char>| ascii_lowered(s)) == sentences(
            ws.map_values(|w: Seq<char>| ascii_lowered(w)),
            k,
        ),
    decreases ws.len(),
{
    reveal_strlit(" ");
    let lw = ws.map_values(|w: Seq<char>| ascii_lowered(w));
    if ws.len() == 0 {
        assert(sentences(ws, k).map_values(|s: Seq<char>| ascii_lowered(s)) =~= Seq::<Seq<char>>::empty());
    } else {
        let len = if sentence_len(k) <= ws.len() { sentence_len(k) } else { ws.len() };
        let chunk = ws.take(len as int);
        let tail = ws.skip(len as int);
        lemma_lowered_sentences(tail, k + 1);
        assert(lw.take(len as int) =~= chunk.map_values(|w: Seq<char>| ascii_lowered(w)));
        assert(lw.skip(len as int) =~= tail.map_values(|w: Seq<char>| ascii_lowered(w)));
        lemma_lowered_join(chunk, " "@);
        assert(ascii_lowered(" "@) =~= " "@);
        let rest = sentences(tail, k + 1);
        let first = join_with(chunk, " "@);
        assert(sentences(ws, k) == seq![first] + rest);
        assert((seq![first] + rest).map_values(|s: Seq<char>| ascii_lowered(s)) =~= seq![ascii_lowered(first)]
            + rest.map_values(|s: Seq<char>| ascii_lowered(s)));
    }
}

/// Lowering rendered words renders the lowered words.
proof fn lemma_lowered_render(ws: Seq<Seq<char>>)
    ensures
        ascii_lowered(render_sentences(ws)) == render_sentences(ws.map_values(|w: Seq<char>| ascii_lowered(w))),
{
    reveal_strlit(". ");
    reveal_strlit(".");
    if ws.len() == 0 {
        assert(ascii_lowered(Seq::<char>::empty()) =~= Seq::<char>::empty());
    } else {
        let s = sentences(ws, 0);
        lemma_lowered_sentences(ws, 0);
        lemma_lowered_join(s, ". "@);
        assert(ascii_lowered(". "@) =~= ". "@);
        assert(ascii_lowered("."@) =~= "."@);
        lemma_lowered_concat(join_with(s, ". "@), "."@);
    }
}

/// A word missing from the list is not found.
proof fn lemma_find_absent(list: Seq<Seq<char>>, w: Seq<char>)
    requires
        forall|k: int| 0 <= k < list.len() ==> #[trigger] list[k] != w,
    ensures
        find_word(list, w) is None,
    decreases list.len(),
{
    if list.len() > 0 {
        lemma_find_absent(list.drop_last(), w);
    }
}

/// In a list of distinct entries each entry is found at its own index.
proof fn lemma_find_distinct(list: Seq<Seq<char>>, i: int)
    requires
        0 <= i < list.len(),
        forall|a: int, b: int| 0 <= a < b < list.len() ==> #[trigger] list[a] != #[trigger] list[b],
    ensures
        find_word(list, list[i]) == Some(i as nat),
    decreases list.len(),
{
    let d = list.drop_last();
    if i < list.len() - 1 {
        assert(d[i] == list[i]);
        lemma_find_distinct(d, i);
    } else {
        assert forall|k: int| 0 <= k < d.len() implies #[trigger] d[k] != list[i] by {
            assert(d[k] == list[k]);
        }
        lemma_find_absent(d, list[i]);
    }
}

/// Looking up the selected words of a dictionary of distinct words gives
/// the indices back.
proof fn lemma_lookup_selected(words: Seq<Seq<char>>, idx: Seq<u16>)
    requires
        words.len() <= 65536,
        forall|a: int, b: int| 0 <= a < b < words.len() ==> #[trigger] words[a] != #[trigger] words[b],
        forall|k: int| 0 <= k < idx.len() ==> #[trigger] idx[k] < words.len(),
    ensures
        lookup_tokens(words, selected_words(words, idx)) == Ok::<Seq<u16>, TransportErrorView>(idx),
    decreases idx.len(),
{
    let toks = selected_words(words, idx);
    if idx.len() > 0 {
        let rest = idx.drop_first();
        assert(toks.drop_first() =~= selected_words(words, rest));
        assert(toks[0] == words[idx[0] as int]);
        lemma_find_distinct(words, idx[0] as int);
        assert forall|k: int| 0 <= k < rest.len() implies #[trigger] rest[k] < words.len() by {
            assert(rest[k] == idx[k + 1]);
        }
        lemma_lookup_selected(words, rest);
        assert(seq![idx[0]] + rest =~= idx);
    } else {
        assert(idx =~= Seq::<u16>::empty());
    }
}

/// The sentences of clean words hold only word characters and spaces.
proof fn lemma_sentences_chars(ws: Seq<Seq<char>>, k: nat)
    requires
        forall|j: int| 0 <= j < ws.len() ==> is_clean_word(#[trigger] ws[j]),
    ensures
        forall|j: int| 0 <= j < sentences(ws, k).len() ==> all_chars(#[trigger] sentences(ws, k)[j], sentence_char()),
    decreases ws.len(),
{
    if ws.len() > 0 {
        let len = if sentence_len(k) <= ws.len() { sentence_len(k) } else { ws.len() };
        let chunk = ws.take(len as int);
        assert forall|j: int| 0 <= j < chunk.len() implies all_chars(#[trigger] chunk[j], sentence_char()) by {
            assert(is_clean_word(ws[j]));
        }
        reveal_strlit(" ");
        lemma_join_chars(chunk, " "@, sentence_char());
        lemma_sentences_chars(ws.skip(len as int), k + 1);
        let rest = sentences(ws.skip(len as int), k + 1);
        assert forall|j: int| 0 <= j < sentences(ws, k).len() implies all_chars(#[trigger] sentences(ws, k)[j], sentence_char()) by {
            if j > 0 {
                assert(sentences(ws, k)[j] == rest[j - 1]);
            }
        }
    }
}

/// Clean words rendered as sentences and joined by double spaces split
/// back into the words.
proof fn lemma_split_sentences(ws: Seq<Seq<char>>, k: nat)
    requires
        ws.len() > 0,
        forall|j: int| 0 <= j < ws.len() ==> is_clean_word(#[trigger] ws[j]),
    ensures
        split_whitespace(join_with(sentences(ws, k), "  "@)) == ws,
    decreases ws.len(),
{
    reveal_strlit(" ");
    reveal_strlit("  ");
    let len = if sentence_len(k) <= ws.len() { sentence_len(k) } else { ws.len() };
    let chunk = ws.take(len as int);
    let first = join_with(chunk, " "@);
    assert forall|j: int| 0 <= j < chunk.len() implies is_word(#[trigger] chunk[j]) by {
        assert(is_clean_word(ws[j]));
    }
    lemma_split_join(chunk, " "@);
    let tail = ws.skip(len as int);
    let rest = sentences(tail, k + 1);
    assert(sentences(ws, k) == seq![first] + rest);
    if tail.len() == 0 {
        assert(rest =~= Seq::<Seq<char>>::empty());
        assert(seq![first] + rest =~= seq![first]);
        assert(chunk =~= ws);
    } else {
        assert forall|j: int| 0 <= j < tail.len() implies is_clean_word(#[trigger] tail[j]) by {
            assert(tail[j] == ws[j + len]);
        }
        lemma_split_sentences(tail, k + 1);
        assert(rest.len() > 0);
        lemma_join_front(first, rest, "  "@);
        let a = first + "  "@;
        assert(a.last() == ' ');
        lemma_split_concat(a, join_with(rest, "  "@));
        lemma_split_trailing_blank(first, "  "@);
        assert(first + "  "@ + join_with(rest, "  "@) == a + join_with(rest, "  "@));
        assert(chunk + tail =~= ws);
    }
}

/// Rendered clean words are ASCII text of word characters, spaces and full
/// stops; the non-empty ones start with a word character and end with a
/// full stop.
pub proof fn lemma_render_shape(ws: Seq<Seq<char>>)
    requires
        forall|j: int| 0 <= j < ws.len() ==> is_clean_word(#[trigger] ws[j]),
    ensures
        all_chars(render_sentences(ws), rendered_char()),
        is_ascii_text(render_sentences(ws)),
        ws.len() > 0 ==> {
            &&& render_sentences(ws).len() > 0
            &&& is_token_char(render_sentences(ws)[0])
            &&& render_sentences(ws).last() == '.'
        },
{
    reveal_strlit(". ");
    reveal_strlit(".");
    let r = render_sentences(ws);
    if ws.len() > 0 {
        let s = sentences(ws, 0);
        lemma_sentences_chars(ws, 0);
        assert forall|j: int| 0 <= j < s.len() implies all_chars(#[trigger] s[j], rendered_char()) by {
            assert(all_chars(s[j], sentence_char()));
            assert forall|i: int| 0 <= i < s[j].len() implies rendered_char()(#[trigger] s[j][i]) by {
                assert(sentence_char()(s[j][i]));
            }
        }
        lemma_join_chars(s, ". "@, rendered_char());
        let jn = join_with(s, ". "@);
        assert forall|i: int| 0 <= i < r.len() implies rendered_char()(#[trigger] r[i]) by {
            if i < jn.len() {
                assert(r[i] == jn[i]);
            }
        }
        let len = if sentence_len(0) <= ws.len() { sentence_len(0) } else { ws.len() };
        let chunk = ws.take(len as int);
        assert(chunk[0] == ws[0]);
        assert(is_clean_word(ws[0]));
        lemma_join_first(chunk, " "@);
        assert(s[0] == join_with(chunk, " "@));
        lemma_join_first(s, ". "@);
        assert(r[0] == jn[0]);
    }
    assert forall|i: int| 0 <= i < r.len() implies (#[trigger] r[i] as u32) < 128 by {
        assert(rendered_char()(r[i]));
    }
}

/// Blanking the punctuation of rendered clean words and splitting at
/// whitespace gives the words back.
proof fn lemma_split_render(ws: Seq<Seq<char>>)
    requires
        forall|j: int| 0 <= j < ws.len() ==> is_clean_word(#[trigger] ws[j]),
    ensures
        split_whitespace(blank_punctuation(render_sentences(ws))) == ws,
{
    reveal_strlit(" ");
    reveal_strlit("  ");
    reveal_strlit(". ");
    reveal_strlit(".");
    let r = render_sentences(ws);
    if ws.len() == 0 {
        assert(blank_punctuation(Seq::<char>::empty()) =~= Seq::<char>::empty());
        assert(ws =~= Seq::<Seq<char>>::empty());
    } else {
        let s = sentences(ws, 0);
        lemma_sentences_chars(ws, 0);
        let jn = join_with(s, ". "@);
        assert forall|j: int| 0 <= j < s.len() implies blank_punctuation(#[trigger] s[j]) == s[j] by {
            assert(all_chars(s[j], sentence_char()));
            assert forall|i: int| 0 <= i < s[j].len() implies sentence_char()(#[trigger] s[j][i]) by {}
            assert(blank_punctuation(s[j]) =~= s[j]);
        }
        lemma_blank_join(s, ". "@);
        lemma_blank_concat(jn, "."@);
        assert(blank_punctuation(". "@) =~= "  "@);
        assert(blank_punctuation("."@) =~= " "@);
        lemma_split_trailing_blank(join_with(s, "  "@), " "@);
        lemma_split_sentences(ws, 0);
    }
}

/// Rendering word indices as sentences and parsing them back gives the
/// indices again, for a dictionary of non-empty ASCII words without
/// whitespace and `. , ! ?` that are distinct after lower-casing.
pub proof fn lemma_sentence_roundtrip(words: Seq<Seq<char>>, indices: Seq<u16>)
    requires
        clean_dictionary(words),
        words.len() <= 65536,
        forall|k: int| 0 <= k < indices.len() ==> #[trigger] indices[k] < words.len(),
    ensures
        lookup_tokens(lowered(words), sentence_tokens(render_sentences(selected_words(words, indices))))
            == Ok::<Seq<u16>, TransportErrorView>(indices),
{
    let ws = selected_words(words, indices);
    let lw = ws.map_values(|w: Seq<char>| ascii_lowered(w));
    assert forall|j: int| 0 <= j < ws.len() implies is_clean_word(#[trigger] ws[j]) by {
        assert(ws[j] == words[indices[j] as int]);
    }
    lemma_render_shape(ws);
    lemma_lowered_render(ws);
    assert(lowercase(render_sentences(ws)) == render_sentences(lw));
    assert forall|j: int| 0 <= j < lw.len() implies is_clean_word(#[trigger] lw[j]) by {
        lemma_lowered_clean_word(ws[j]);
    }
    lemma_split_render(lw);
    let lows = lowered(words);
    assert forall|k: int| 0 <= k < words.len() implies #[trigger] lows[k] == ascii_lowered(words[k]) by {
        lemma_lowered_clean_word(words[k]);
    }
    assert(lw =~= selected_words(lows, indices)) by {
        assert forall|j: int| 0 <= j < lw.len() implies #[trigger] lw[j] == selected_words(lows, indices)[j] by {
            assert(ws[j] == words[indices[j] as int]);
            assert(lows[indices[j] as int] == ascii_lowered(words[indices[j] as int]));
        }
    }
    lemma_lookup_selected(lows, indices);
}

} // verus!
