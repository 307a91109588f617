use crate::chain::{has_state, in_runs, is_walk, lemma_occurrences_source, window, occurrences, runs, transitions, weight, Chain, State};
use crate::vocab::{register, Vocab};
use vstd::prelude::*;
use vstd::string::StringExecFns;

verus! {

/// Lines matching this pattern (after transliteration to ASCII) are left
/// out of the corpus: quotes at a word boundary, brackets and parentheses.
pub const REJECT_PATTERN: &'static str = "(^')|('$)|\\s'|'\\s|[\"(\\(\\)\\[\\])]";

/// The word that stands for the start of a sentence.
pub const BEGIN_WORD: &'static str = "___BEGIN__";

/// The word that stands for the end of a sentence.
pub const END_WORD: &'static str = "___END__";

/// Tenths of a candidate's length that may repeat the corpus verbatim.
pub const MAX_OVERLAP_RATIO_TENTHS: u64 = 7;

/// Upper bound on the number of words that may repeat the corpus verbatim.
pub const MAX_OVERLAP_TOTAL: usize = 15;

/// The ASCII transliteration of `s`.
pub uninterp spec fn ascii_of(s: Seq<char>) -> Seq<char>;

/// Whether `text` matches the regular expression `pattern`; `None` when the
/// pattern does not compile.
pub uninterp spec fn regex_verdict(pattern: Seq<char>, text: Seq<char>) -> Option<bool>;

/// `s` without leading and trailing whitespace.
pub uninterp spec fn trimmed(s: Seq<char>) -> Seq<char>;

/// The pieces of `s` between its `'\n'` characters.
pub uninterp spec fn lines_of(s: Seq<char>) -> Seq<Seq<char>>;

/// The whitespace-separated words of `s`.
pub uninterp spec fn words_of(s: Seq<char>) -> Seq<Seq<char>>;

/// Relies on unidecode::unidecode: the transliteration depends on the text alone.
#[verifier::external_body]
fn transliterate(s: &str) -> (r: String)
    ensures
        r@ == ascii_of(s@),
{
    unidecode::unidecode(s)
}

/// Relies on regex::Regex::new and Regex::is_match: whether `text` holds a
/// match of `pattern`, or `None` when `pattern` is not a valid expression.
#[verifier::external_body]
fn regex_is_match(pattern: &str, text: &str) -> (r: Option<bool>)
    ensures
        r == regex_verdict(pattern@, text@),
{
    match regex::Regex::new(pattern) {
        Ok(re) => Some(re.is_match(text)),
        Err(_) => None,
    }
}

/// Relies on str::trim: the text without surrounding whitespace.
#[verifier::external_body]
fn trim(s: &str) -> (r: &str)
    ensures
        r@ == trimmed(s@),
{
    s.trim()
}

/// Relies on str::split with a `'\n'` separator, each piece copied.
#[verifier::external_body]
fn split_lines(s: &str) -> (r: Vec<String>)
    ensures
        views(r@) == lines_of(s@),
{
    s.split('\n').map(|l| l.to_string()).collect()
}

/// Relies on str::split_whitespace, each word copied.
#[verifier::external_body]
fn split_words(s: &str) -> (r: Vec<String>)
    ensures
        views(r@) == words_of(s@),
{
    s.split_whitespace().map(|w| w.to_string()).collect()
}

/// Relies on str::contains: whether `needle` occurs in `hay`.
#[verifier::external_body]
fn str_contains(hay: &str, needle: &str) -> (r: bool)
    ensures
        r == is_substring(needle@, hay@),
{
    hay.contains(needle)
}

/// The text of each string.
pub open spec fn views(ws: Seq<String>) -> Seq<Seq<char>> {
    ws.map_values(|w: String| w@)
}

/// `needle` occurs in `hay` as a contiguous piece.
pub open spec fn is_substring(needle: Seq<char>, hay: Seq<char>) -> bool {
    exists|i: int| 0 <= i <= hay.len() - needle.len() && #[trigger] hay.subrange(i, i + needle.len()) == needle
}

/// The words joined by single spaces.
pub open spec fn join_words(ws: Seq<Seq<char>>) -> Seq<char>
    decreases ws.len(),
{
    if ws.len() == 0 {
        Seq::empty()
    } else if ws.len() == 1 {
        ws[0]
    } else {
        join_words(ws.drop_last()) + seq![' '] + ws.last()
    }
}

/// A line is a sentence when it is not blank and does not match the
/// rejection pattern once transliterated.
pub open spec fn is_sentence(line: Seq<char>) -> bool {
    trimmed(line).len() > 0 && regex_verdict(REJECT_PATTERN@, ascii_of(line)) != Some(true)
}

/// The number of words that a candidate of `n` words may share verbatim
/// with the corpus: `ratio_tenths / 10` of `n`, rounded, and at most `cap`.
pub open spec fn overlap_max(n: nat, ratio_tenths: nat, cap: nat) -> nat {
    let r = (ratio_tenths * n + 5) / 10;
    if cap < r {
        cap
    } else {
        r
    }
}

/// The number of windows of `overlap_max + 1` words checked over a
/// candidate of `n` words.
pub open spec fn gram_count(n: nat, m: nat) -> nat {
    if n > m {
        (n - m) as nat
    } else {
        1
    }
}

/// The `i`-th checked window of `words`, of `m + 1` words, cut short at the end.
pub open spec fn gram(words: Seq<Seq<char>>, m: nat, i: int) -> Seq<Seq<char>> {
    let end = if i + m + 1 < words.len() {
        i + m + 1
    } else {
        words.len() as int
    };
    words.subrange(i, end)
}

/// No checked window of `words`, joined by spaces, occurs in `corpus`.
pub open spec fn overlap_ok(words: Seq<Seq<char>>, corpus: Seq<char>, m: nat) -> bool {
    forall|i: int|
        0 <= i < gram_count(words.len(), m) ==> !is_substring(
            join_words(#[trigger] gram(words, m, i)),
            corpus,
        )
}

/// Joins `words[lo..hi]` with single spaces.
fn join_range(words: &Vec<String>, lo: usize, hi: usize) -> (r: String)
    requires
        lo <= hi <= words@.len(),
    ensures
        r@ == join_words(views(words@).subrange(lo as int, hi as int)),
{
    let mut acc = String::new();
    let mut k: usize = lo;
    while k < hi
        invariant
            lo <= k <= hi <= words@.len(),
            acc@ == join_words(views(words@).subrange(lo as int, k as int)),
        decreases hi - k,
    {
        let ghost v = views(words@);
        assert(v.subrange(lo as int, k + 1).drop_last() =~= v.subrange(lo as int, k as int));
        if k > lo {
            proof {
                reveal_strlit(" ");
            }
            acc.append(" ");
        }
        acc.append(words[k].as_str());
        proof {
            if k == lo {
                assert(acc@ =~= v.subrange(lo as int, k + 1)[0]);
            } else {
                assert(acc@ =~= join_words(v.subrange(lo as int, k as int)) + seq![' '] + v[k as int]);
            }
        }
        k = k + 1;
    }
    acc
}

/// Joins the words with single spaces.
pub fn join(words: &Vec<String>) -> (r: String)
    ensures
        r@ == join_words(views(words@)),
{
    let r = join_range(words, 0, words.len());
    assert(views(words@).subrange(0, words@.len() as int) =~= views(words@));
    r
}

/// The number of words a candidate of `n` words may share verbatim with
/// the corpus.
fn overlap_limit(n: usize, ratio_tenths: u64, cap: usize) -> (r: usize)
    ensures
        r == overlap_max(n as nat, ratio_tenths as nat, cap as nat),
{
    assert((ratio_tenths as int) * (n as int) <= 0xffff_ffff_ffff_ffff * 0xffff_ffff_ffff_ffff)
        by (nonlinear_arith)
        requires
            0 <= ratio_tenths <= 0xffff_ffff_ffff_ffff,
            0 <= n <= 0xffff_ffff_ffff_ffff,
    ;
    let product: u128 = (ratio_tenths as u128) * (n as u128);
    let rounded: u128 = (product + 5) / 10;
    if (cap as u128) < rounded {
        cap
    } else {
        rounded as usize
    }
}

/// Whether `line` is kept as a sentence of the corpus.
pub fn sentence_input(line: &str) -> (r: bool)
    ensures
        r == is_sentence(line@),
{
    if trim(line).is_empty() {
        return false;
    }
    let decoded = transliterate(line);
    match regex_is_match(REJECT_PATTERN, decoded.as_str()) {
        Some(true) => false,
        _ => true,
    }
}

/// The largest vocabulary that still leaves room for the two sentinel words.
pub const TOKEN_LIMIT: usize = 4294967293;

/// The lines that are kept as sentences, in order.
pub open spec fn kept_lines(lines: Seq<Seq<char>>) -> Seq<Seq<char>>
    decreases lines.len(),
{
    if lines.len() == 0 {
        Seq::empty()
    } else if is_sentence(lines.last()) {
        kept_lines(lines.drop_last()).push(lines.last())
    } else {
        kept_lines(lines.drop_last())
    }
}

/// The tokens `toks` read back, through `words`, as the words `ws`.
pub open spec fn decodes(words: Seq<Seq<char>>, toks: Seq<u32>, ws: Seq<Seq<char>>) -> bool {
    &&& toks.len() == ws.len()
    &&& forall|k: int|
        0 <= k < toks.len() ==> #[trigger] toks[k] < words.len() && words[toks[k] as int] == ws[k]
}

/// The word of token `t`, or the empty word for an unknown token.
pub open spec fn word_for(words: Seq<Seq<char>>, t: u32) -> Seq<char> {
    if t < words.len() {
        words[t as int]
    } else {
        Seq::empty()
    }
}

/// The words of the tokens `toks`.
pub open spec fn detokenize(words: Seq<Seq<char>>, toks: Seq<u32>) -> Seq<Seq<char>> {
    toks.map_values(|t: u32| word_for(words, t))
}

/// `a` is the start of `b`.
pub open spec fn is_prefix(a: Seq<Seq<char>>, b: Seq<Seq<char>>) -> bool {
    a.len() <= b.len() && forall|i: int| 0 <= i < a.len() ==> b[i] == a[i]
}

proof fn lemma_decodes_grow(a: Seq<Seq<char>>, b: Seq<Seq<char>>, t: Seq<u32>, ws: Seq<Seq<char>>)
    requires
        decodes(a, t, ws),
        is_prefix(a, b),
    ensures
        decodes(b, t, ws),
{
    assert forall|k: int| 0 <= k < t.len() implies t[k] < b.len() && b[t[k] as int] == ws[k] by {
        assert(t[k] < a.len());
        assert(a[t[k] as int] == ws[k]);
        assert(b[t[k] as int] == a[t[k] as int]);
    }
}

/// All words of `lines`, line after line.
pub open spec fn all_words(lines: Seq<Seq<char>>) -> Seq<Seq<char>>
    decreases lines.len(),
{
    if lines.len() == 0 {
        Seq::empty()
    } else {
        all_words(lines.drop_last()) + words_of(lines.last())
    }
}

/// The vocabulary `v` after registering each of `ws` in turn.
pub open spec fn register_all(v: Seq<Seq<char>>, ws: Seq<Seq<char>>) -> Seq<Seq<char>>
    decreases ws.len(),
{
    if ws.len() == 0 {
        v
    } else {
        register(register_all(v, ws.drop_last()), ws.last())
    }
}

proof fn lemma_register_all_concat(v: Seq<Seq<char>>, a: Seq<Seq<char>>, b: Seq<Seq<char>>)
    ensures
        register_all(v, a + b) == register_all(register_all(v, a), b),
    decreases b.len(),
{
    if b.len() == 0 {
        assert(a + b =~= a);
    } else {
        assert((a + b).drop_last() =~= a + b.drop_last());
        assert((a + b).last() == b.last());
        lemma_register_all_concat(v, a, b.drop_last());
    }
}

/// Tokenizing the kept lines `kept`, starting from the vocabulary `v0`,
/// stopped at line `parsed.len()` with the vocabulary `v`, for a limit:
/// that line's windows would overflow the model's counts (and none of its
/// words was registered), or its word `p` is new and the vocabulary is full
/// after registering its words before `p`.
pub open spec fn stopped_at(
    v0: Seq<Seq<char>>,
    parsed: Seq<Seq<u32>>,
    kept: Seq<Seq<char>>,
    v: Seq<Seq<char>>,
) -> bool {
    let n = parsed.len() as int;
    let before = register_all(v0, all_words(kept.take(n)));
    ||| transitions(parsed) + words_of(kept[n]).len() + 1 > u64::MAX && v == before
    ||| exists|p: int|
        0 <= p < words_of(kept[n]).len() && v == register_all(before, words_of(kept[n]).take(p))
            && v.len() == TOKEN_LIMIT && !v.contains(#[trigger] words_of(kept[n])[p])
}

/// Tokenizes `words`, or gives `None` when one of them is new and the
/// vocabulary has no room left for it.
fn tokenize(vocab: &mut Vocab, words: &Vec<String>) -> (r: Option<Vec<u32>>)
    requires
        old(vocab).wf(),
        old(vocab)@.len() <= TOKEN_LIMIT,
    ensures
        final(vocab).wf(),
        final(vocab)@.len() <= TOKEN_LIMIT,
        is_prefix(old(vocab)@, final(vocab)@),
        r matches Some(t) ==> decodes(final(vocab)@, t@, views(words@)),
        r is Some ==> final(vocab)@ == register_all(old(vocab)@, views(words@)),
        r is None ==> final(vocab)@.len() == TOKEN_LIMIT && exists|k: int|
            0 <= k < words@.len() && final(vocab)@ == register_all(
                old(vocab)@,
                views(words@).take(k),
            ) && !final(vocab)@.contains(#[trigger] words@[k]@),
{
    let mut toks: Vec<u32> = Vec::new();
    let mut k: usize = 0;
    while k < words.len()
        invariant
            0 <= k <= words@.len(),
            vocab.wf(),
            vocab@.len() <= TOKEN_LIMIT,
            is_prefix(old(vocab)@, vocab@),
            decodes(vocab@, toks@, views(words@).take(k as int)),
            vocab@ == register_all(old(vocab)@, views(words@).take(k as int)),
        decreases words@.len() - k,
    {
        assert(views(words@).take(k + 1).drop_last() =~= views(words@).take(k as int));
        let w = words[k].as_str();
        let ghost before = vocab@;
        let id = match vocab.to_token_opt(w) {
            Some(id) => {
                assert(vocab@.contains(w@));
                id
            },
            None => {
                if vocab.len() < TOKEN_LIMIT {
                    vocab.to_token(w)
                } else {
                    assert(!vocab@.contains(words@[k as int]@));
                    return None;
                }
            },
        };
        toks.push(id);
        assert forall|q: int| 0 <= q < toks@.len() implies toks@[q] < vocab@.len() && vocab@[toks@[
            q] as int] == views(words@).take(k + 1)[q] by {
            if q < k {
                assert(before[toks@[q] as int] == views(words@).take(k as int)[q]);
            }
        }
        k = k + 1;
    }
    assert(views(words@).take(words@.len() as int) =~= views(words@));
    Some(toks)
}

/// Options for generating text.
pub struct TextOptions {
    pub tries: i32,
    pub min_words: i32,
    pub max_words: i32,
}

impl Default for TextOptions {
    fn default() -> (r: Self)
        ensures
            r.tries == 999,
            r.min_words == 0,
            r.max_words == 100,
    {
        TextOptions { tries: 999, min_words: 0, max_words: 100 }
    }
}

/// A corpus of sentences and the Markov model trained on it.
pub struct Text {
    parsed_sentences: Vec<Vec<u32>>,
    rejoined_text: String,
    chain: Chain,
    tokenizer: Vocab,
}

impl Text {
    /// The corpus sentences joined by single spaces.
    pub closed spec fn corpus(&self) -> Seq<char> {
        self.rejoined_text@
    }

    /// The tokenized sentences.
    pub closed spec fn sentences(&self) -> Seq<Seq<u32>> {
        runs(self.parsed_sentences@)
    }

    /// The vocabulary's words, by token.
    pub closed spec fn words(&self) -> Seq<Seq<char>> {
        self.tokenizer@
    }

    /// The model.
    pub closed spec fn chain(&self) -> Chain {
        self.chain
    }

    /// Well-formed: the vocabulary and the model are, and the model counts
    /// the windows of the tokenized sentences.
    pub closed spec fn wf(&self) -> bool {
        &&& self.tokenizer.wf()
        &&& self.chain.wf()
        &&& forall|s: State, t: u32|
            #[trigger] weight(self.chain.edges(), s, t) == occurrences(
                runs(self.parsed_sentences@),
                self.chain.begin(),
                self.chain.end(),
                s,
                t,
            )
    }

    /// An empty text.
    fn default() -> (r: Self)
        ensures
            r.tokenizer.wf(),
            r.tokenizer@.len() == 0,
    {
        Text {
            parsed_sentences: Vec::new(),
            rejoined_text: String::new(),
            chain: Chain::default(0, 0),
            tokenizer: Vocab::new(),
        }
    }

    /// Whether no window of `overlap_max + 1` consecutive words of `words`
    /// occurs verbatim in the corpus.
    pub fn verify(&self, words: &Vec<String>, ratio_tenths: u64, cap: usize) -> (r: bool)
        ensures
            r == overlap_ok(
                views(words@),
                self.corpus(),
                overlap_max(words@.len(), ratio_tenths as nat, cap as nat),
            ),
    {
        let n = words.len();
        let m = overlap_limit(n, ratio_tenths, cap);
        let count = if n > m {
            n - m
        } else {
            1
        };
        let mut i: usize = 0;
        while i < count
            invariant
                n == words@.len(),
                m == overlap_max(n as nat, ratio_tenths as nat, cap as nat),
                count == gram_count(n as nat, m as nat),
                0 <= i <= count,
                forall|q: int|
                    0 <= q < i ==> !is_substring(
                        join_words(#[trigger] gram(views(words@), m as nat, q)),
                        self.rejoined_text@,
                    ),
            decreases count - i,
        {
            let end = if m < n - i {
                i + m + 1
            } else {
                n
            };
            let joined = join_range(words, i, end);
            assert(views(words@).subrange(i as int, end as int) == gram(
                views(words@),
                m as nat,
                i as int,
            ));
            if str_contains(self.rejoined_text.as_str(), joined.as_str()) {
                return false;
            }
            i = i + 1;
        }
        true
    }
}

impl Text {
    /// Splits `data` into lines, keeps those that `sentence_input` accepts,
    /// and tokenizes their words line by line. Tokenizing stops at the first
    /// line that hits a limit (see `stopped_at`).
    fn parse(&mut self, data: &str) -> (r: (Vec<Vec<u32>>, String))
        requires
            old(self).tokenizer.wf(),
            old(self).tokenizer@.len() <= TOKEN_LIMIT,
        ensures
            final(self).tokenizer.wf(),
            final(self).tokenizer@.len() <= TOKEN_LIMIT,
            is_prefix(old(self).tokenizer@, final(self).tokenizer@),
            r.1@ == join_words(kept_lines(lines_of(data@))),
            transitions(runs(r.0@)) <= u64::MAX,
            r.0@.len() <= kept_lines(lines_of(data@)).len(),
            forall|i: int|
                0 <= i < r.0@.len() ==> decodes(
                    final(self).tokenizer@,
                    (#[trigger] r.0@[i])@,
                    words_of(kept_lines(lines_of(data@))[i]),
                ),
            r.0@.len() == kept_lines(lines_of(data@)).len() ==> final(self).tokenizer@
                == register_all(old(self).tokenizer@, all_words(kept_lines(lines_of(data@)))),
            r.0@.len() < kept_lines(lines_of(data@)).len() ==> stopped_at(
                old(self).tokenizer@,
                runs(r.0@),
                kept_lines(lines_of(data@)),
                final(self).tokenizer@,
            ),
    {
        let lines = split_lines(data);
        let mut sentences: Vec<String> = Vec::new();
        let mut j: usize = 0;
        while j < lines.len()
            invariant
                0 <= j <= lines@.len(),
                views(sentences@) == kept_lines(views(lines@).take(j as int)),
            decreases lines@.len() - j,
        {
            assert(views(lines@).take(j + 1).drop_last() =~= views(lines@).take(j as int));
            if sentence_input(lines[j].as_str()) {
                sentences.push(lines[j].clone());
                assert(views(sentences@) =~= kept_lines(views(lines@).take(j as int)).push(
                    lines@[j as int]@,
                ));
            }
            j = j + 1;
        }
        assert(views(lines@).take(lines@.len() as int) =~= views(lines@));
        let ghost kept = kept_lines(lines_of(data@));
        let rejoined = join(&sentences);
        let mut parsed: Vec<Vec<u32>> = Vec::new();
        let mut running: u64 = 0;
        let mut j: usize = 0;
        while j < sentences.len()
            invariant
                0 <= j <= sentences@.len(),
                views(sentences@) == kept,
                kept == kept_lines(lines_of(data@)),
                rejoined@ == join_words(kept),
                self.tokenizer.wf(),
                self.tokenizer@.len() <= TOKEN_LIMIT,
                is_prefix(old(self).tokenizer@, self.tokenizer@),
                parsed@.len() == j,
                transitions(runs(parsed@)) == running,
                self.tokenizer@ == register_all(old(self).tokenizer@, all_words(kept.take(j as int))),
                forall|i: int|
                    0 <= i < j ==> decodes(
                        self.tokenizer@,
                        (#[trigger] parsed@[i])@,
                        words_of(kept[i]),
                    ),
            decreases sentences@.len() - j,
        {
            let words = split_words(sentences[j].as_str());
            assert(sentences@[j as int]@ == kept[j as int]);
            if (words.len() as u64) >= u64::MAX - running {
                assert(runs(parsed@).len() == j);
                assert(stopped_at(old(self).tokenizer@, runs(parsed@), kept, self.tokenizer@));
                return (parsed, rejoined);
            }
            let ghost before = self.tokenizer@;
            let ghost prev = parsed@;
            match tokenize(&mut self.tokenizer, &words) {
                Some(t) => {
                    parsed.push(t);
                    running = running + words.len() as u64 + 1;
                    proof {
                        assert(runs(parsed@).drop_last() =~= runs(prev));
                        assert(kept.take(j + 1).drop_last() =~= kept.take(j as int));
                        lemma_register_all_concat(
                            old(self).tokenizer@,
                            all_words(kept.take(j as int)),
                            words_of(kept[j as int]),
                        );
                        assert forall|i: int| 0 <= i < old(self).tokenizer@.len() implies
                            self.tokenizer@[i] == old(self).tokenizer@[i] by {
                            assert(before[i] == old(self).tokenizer@[i]);
                        }
                        assert forall|i: int|
                            0 <= i < j + 1 implies decodes(
                            self.tokenizer@,
                            (#[trigger] parsed@[i])@,
                            words_of(kept[i]),
                        ) by {
                            if i < j {
                                assert(parsed@[i] == prev[i]);
                                lemma_decodes_grow(before, self.tokenizer@, prev[i]@, words_of(kept[i]));
                            }
                        }
                    }
                },
                None => {
                    proof {
                        let k = choose|k: int|
                            0 <= k < words@.len() && self.tokenizer@ == register_all(
                                before,
                                views(words@).take(k),
                            ) && !self.tokenizer@.contains(#[trigger] words@[k]@);
                        assert(views(words@)[k] == words@[k]@);
                        assert(runs(parsed@).len() == j);
                        assert(words_of(kept[j as int])[k] == words@[k]@);
                        assert(stopped_at(old(self).tokenizer@, runs(parsed@), kept, self.tokenizer@));
                        assert forall|i: int| 0 <= i < old(self).tokenizer@.len() implies
                            self.tokenizer@[i] == old(self).tokenizer@[i] by {
                            assert(before[i] == old(self).tokenizer@[i]);
                        }
                    }
                    return (parsed, rejoined);
                },
            }
            j = j + 1;
        }
        assert(kept.take(sentences@.len() as int) =~= kept);
        (parsed, rejoined)
    }
}

impl Text {
    /// Builds the corpus and the model from the lines of `data`.
    pub fn new(data: String) -> (r: Self)
        ensures
            r.wf(),
            r.corpus() == join_words(kept_lines(lines_of(data@))),
            r.sentences().len() <= kept_lines(lines_of(data@)).len(),
            forall|i: int|
                0 <= i < r.sentences().len() ==> decodes(
                    r.words(),
                    #[trigger] r.sentences()[i],
                    words_of(kept_lines(lines_of(data@))[i]),
                ),
            r.sentences().len() == kept_lines(lines_of(data@)).len() ==> r.words() == register(
                register(
                    register_all(Seq::empty(), all_words(kept_lines(lines_of(data@)))),
                    BEGIN_WORD@,
                ),
                END_WORD@,
            ),
            r.sentences().len() < kept_lines(lines_of(data@)).len() ==> exists|v: Seq<Seq<char>>|
                stopped_at(Seq::empty(), r.sentences(), kept_lines(lines_of(data@)), v) && r.words()
                    == register(register(v, BEGIN_WORD@), END_WORD@),
            r.chain().begin() < r.words().len(),
            r.chain().end() < r.words().len(),
            r.words()[r.chain().begin() as int] == BEGIN_WORD@,
            r.words()[r.chain().end() as int] == END_WORD@,
            forall|s: State, t: u32|
                #[trigger] weight(r.chain().edges(), s, t) == occurrences(
                    r.sentences(),
                    r.chain().begin(),
                    r.chain().end(),
                    s,
                    t,
                ),
    {
        let mut text = Text::default();
        assert(text.tokenizer@ =~= Seq::<Seq<char>>::empty());
        let (parsed, rejoined) = text.parse(data.as_str());
        text.parsed_sentences = parsed;
        text.rejoined_text = rejoined;
        let ghost mid = text.tokenizer@;
        let begin = text.tokenizer.to_token(BEGIN_WORD);
        let end = text.tokenizer.to_token(END_WORD);
        proof {
            let v = text.tokenizer@;
            let kept = kept_lines(lines_of(data@));
            assert(is_prefix(mid, v));
            assert(v.len() >= mid.len());
            assert(v == register(register(mid, BEGIN_WORD@), END_WORD@));
            assert(text.sentences() == runs(text.parsed_sentences@));
            assert forall|i: int|
                0 <= i < text.sentences().len() implies decodes(
                v,
                #[trigger] text.sentences()[i],
                words_of(kept[i]),
            ) by {
                assert(text.sentences()[i] == text.parsed_sentences@[i]@);
                lemma_decodes_grow(mid, v, text.parsed_sentences@[i]@, words_of(kept[i]));
            }
        }
        text.chain = Chain::new(&text.parsed_sentences, begin, end);
        text
    }

    /// The words of `tokens`, the empty word for an unknown token.
    fn to_words(&self, tokens: &Vec<u32>) -> (r: Vec<String>)
        ensures
            views(r@) == detokenize(self.tokenizer@, tokens@),
    {
        let mut words: Vec<String> = Vec::new();
        let mut k: usize = 0;
        while k < tokens.len()
            invariant
                0 <= k <= tokens@.len(),
                words@.len() == k,
                views(words@) == tokens@.take(k as int).map_values(
                    |t: u32| word_for(self.tokenizer@, t),
                ),
            decreases tokens@.len() - k,
        {
            let w = self.tokenizer.to_word(tokens[k]);
            let ghost prev = words@;
            words.push(w.to_owned());
            proof {
                let target = tokens@.take(k + 1).map_values(|t: u32| word_for(self.tokenizer@, t));
                assert(words@[k as int]@ == word_for(self.tokenizer@, tokens@[k as int]));
                assert forall|q: int| 0 <= q < k + 1 implies views(words@)[q] == target[q] by {
                    if q < k {
                        assert(words@[q] == prev[q]);
                        assert(views(prev)[q] == tokens@.take(k as int).map_values(
                            |t: u32| word_for(self.tokenizer@, t),
                        )[q]);
                    }
                }
                assert(views(words@) =~= target);
            }
            k = k + 1;
        }
        assert(tokens@.take(tokens@.len() as int) =~= tokens@);
        words
    }

    /// The candidate `toks` has between `min_words` and `max_words` tokens
    /// and its words do not repeat the corpus verbatim.
    pub open spec fn accepted(&self, toks: Seq<u32>, options: TextOptions) -> bool {
        &&& options.min_words <= toks.len() <= options.max_words
        &&& overlap_ok(
            detokenize(self.words(), toks),
            self.corpus(),
            overlap_max(toks.len(), MAX_OVERLAP_RATIO_TENTHS as nat, MAX_OVERLAP_TOTAL as nat),
        )
    }

    /// The words of `tokens` joined by spaces when the candidate passes the
    /// length and overlap filters, `None` when it does not.
    pub fn accept(&self, tokens: &Vec<u32>, options: &TextOptions) -> (r: Option<String>)
        ensures
            r is Some <==> self.accepted(tokens@, *options),
            r matches Some(s) ==> s@ == join_words(detokenize(self.words(), tokens@)),
    {
        let len = tokens.len();
        if options.max_words < 0 || len > options.max_words as usize {
            return None;
        }
        if options.min_words > 0 && len < options.min_words as usize {
            return None;
        }
        let words = self.to_words(tokens);
        if self.verify(&words, MAX_OVERLAP_RATIO_TENTHS, MAX_OVERLAP_TOTAL) {
            Some(join(&words))
        } else {
            None
        }
    }

    /// Samples up to `options.tries` candidates and returns the first that
    /// `accept` lets through; the empty string when none passes or the model
    /// has no initial window.
    pub fn generate(&self, options: TextOptions) -> (r: String)
        requires
            self.wf(),
        ensures
            options.tries <= 0 ==> r@ == Seq::<char>::empty(),
            r@.len() > 0 ==> exists|toks: Seq<u32>|
                {
                    &&& is_walk(self.chain().edges(), self.chain().start(), toks)
                    &&& forall|k: int| 0 <= k < toks.len() ==> toks[k] != self.chain().end()
                    &&& self.chain().is_complete(self.chain().start(), toks)
                    &&& forall|k: int| 0 <= k < toks.len() ==> in_runs(self.sentences(), #[trigger] toks[k])
                    &&& self.accepted(toks, options)
                    &&& r@ == join_words(#[trigger] detokenize(self.words(), toks))
                },
    {
        if !self.chain.has_start() {
            return String::new();
        }
        let mut attempt: i32 = 0;
        while attempt < options.tries
            invariant
                self.wf(),
                has_state(self.chain.edges(), self.chain.start()),
                0 <= attempt,
            decreases options.tries - attempt,
        {
            attempt = attempt + 1;
            let tokens = self.chain.generate(None);
            match self.accept(&tokens, &options) {
                Some(r) => {
                    assert(r@ == join_words(detokenize(self.words(), tokens@)));
                    proof {
                        assert forall|k: int| 0 <= k < tokens@.len() implies in_runs(
                            self.sentences(),
                            #[trigger] tokens@[k],
                        ) by {
                            let w = window(self.chain.start(), tokens@, k);
                            assert(weight(self.chain.edges(), w, tokens@[k]) > 0);
                            lemma_occurrences_source(
                                self.sentences(),
                                self.chain.begin(),
                                self.chain.end(),
                                w,
                                tokens@[k],
                            );
                        }
                    }
                    return r;
                },
                None => {},
            }
        }
        String::new()
    }
}

impl Text {
    /// The token `t` is neither sentinel and reads back as a word of one of
    /// the lines `kept`.
    pub open spec fn is_corpus_token(&self, kept: Seq<Seq<char>>, t: u32) -> bool {
        &&& t != self.chain().begin()
        &&& t != self.chain().end()
        &&& exists|i: int, j: int|
            0 <= i < kept.len() && 0 <= j < words_of(kept[i]).len() && #[trigger] words_of(
                kept[i],
            )[j] == self.words()[t as int]
    }
}

/// No word of the lines `kept` is `w`.
pub open spec fn word_absent(kept: Seq<Seq<char>>, w: Seq<char>) -> bool {
    forall|i: int, j: int|
        0 <= i < kept.len() && 0 <= j < words_of(kept[i]).len() ==> #[trigger] words_of(kept[i])[j]
            != w
}

/// For a text built (by `Text::new`) from lines `kept` that never hold the
/// sentinel words, every token of a generated candidate (each lies in a
/// tokenized sentence, as `Text::generate` ensures) reads back as a word of
/// some kept line, and is neither sentinel.
pub proof fn lemma_output_words_from_corpus(text: &Text, kept: Seq<Seq<char>>, toks: Seq<u32>)
    requires
        text.sentences().len() <= kept.len(),
        forall|i: int|
            0 <= i < text.sentences().len() ==> decodes(
                text.words(),
                #[trigger] text.sentences()[i],
                words_of(kept[i]),
            ),
        text.chain().begin() < text.words().len(),
        text.chain().end() < text.words().len(),
        text.words()[text.chain().begin() as int] == BEGIN_WORD@,
        text.words()[text.chain().end() as int] == END_WORD@,
        word_absent(kept, BEGIN_WORD@),
        word_absent(kept, END_WORD@),
        forall|k: int| 0 <= k < toks.len() ==> in_runs(text.sentences(), #[trigger] toks[k]),
    ensures
        forall|k: int| 0 <= k < toks.len() ==> text.is_corpus_token(kept, #[trigger] toks[k]),
{
    assert forall|k: int| 0 <= k < toks.len() implies text.is_corpus_token(kept, #[trigger] toks[k]) by {
        assert(in_runs(text.sentences(), toks[k]));
        let i = choose|i: int|
            0 <= i < text.sentences().len() && #[trigger] text.sentences()[i].contains(toks[k]);
        let j = choose|j: int|
            0 <= j < text.sentences()[i].len() && text.sentences()[i][j] == toks[k];
        assert(decodes(text.words(), text.sentences()[i], words_of(kept[i])));
        assert(text.sentences()[i][j] < text.words().len());
        assert(text.words()[toks[k] as int] == words_of(kept[i])[j]);
        assert(words_of(kept[i])[j] != BEGIN_WORD@);
        assert(words_of(kept[i])[j] != END_WORD@);
        assert(exists|i2: int, j2: int|
            0 <= i2 < kept.len() && 0 <= j2 < words_of(kept[i2]).len() && #[trigger] words_of(
                kept[i2],
            )[j2] == text.words()[toks[k] as int]);
    }
}

} // verus!
