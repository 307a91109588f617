use vstd::prelude::*;

verus! {

/// An append-only, two-way mapping between words and dense token ids.
///
/// The token of a word is its position in `id_to_word`, so ids are handed out
/// in first-seen order starting at 0 and are never reused.
pub struct Vocab {
    id_to_word: Vec<String>,
}

impl View for Vocab {
    type V = Seq<Seq<char>>;

    closed spec fn view(&self) -> Seq<Seq<char>> {
        self.id_to_word@.map_values(|w: String| w@)
    }
}

impl Default for Vocab {
    fn default() -> (r: Self)
        ensures
            r.wf(),
            r@ == Seq::<Seq<char>>::empty(),
    {
        Vocab::new()
    }
}

/// Every word of `words` occurs once.
pub open spec fn words_unique(words: Seq<Seq<char>>) -> bool {
    forall|i: int, j: int| 0 <= i < j < words.len() ==> words[i] != words[j]
}

impl Vocab {
    /// Well-formed: no word is registered twice, and every id fits in `u32`.
    pub open spec fn wf(&self) -> bool {
        &&& words_unique(self@)
        &&& self@.len() <= u32::MAX
    }

    /// Creates a new, empty vocabulary.
    pub fn new() -> (r: Self)
        ensures
            r.wf(),
            r@ == Seq::<Seq<char>>::empty(),
    {
        let r = Vocab { id_to_word: Vec::new() };
        assert(r@ =~= Seq::<Seq<char>>::empty());
        r
    }

    /// The number of registered words.
    pub fn len(&self) -> (r: usize)
        ensures
            r == self@.len(),
    {
        self.id_to_word.len()
    }

    /// Looks `word` up without registering it.
    pub fn to_token_opt(&self, word: &str) -> (r: Option<u32>)
        requires
            self.wf(),
        ensures
            r is None <==> !self@.contains(word@),
            r matches Some(id) ==> id < self@.len() && self@[id as int] == word@ && id
                == token_of(self@, word@),
    {
        let w = word.to_owned();
        let mut i: usize = 0;
        while i < self.id_to_word.len()
            invariant
                0 <= i <= self.id_to_word@.len(),
                self.wf(),
                w@ == word@,
                forall|j: int| 0 <= j < i ==> self@[j] != word@,
            decreases self.id_to_word@.len() - i,
        {
            if self.id_to_word[i] == w {
                proof {
                    assert(self@[i as int] == word@);
                    assert(self@.contains(word@));
                    lemma_token_of(self@, word@, i as int);
                }
                return Some(i as u32);
            }
            i = i + 1;
        }
        proof {
            if self@.contains(word@) {
                let j = choose|j: int| 0 <= j < self@.len() && self@[j] == word@;
                assert(self@[j] == word@);
            }
        }
        None
    }

    /// Returns the token of `word`, registering it with the next unused id
    /// when it is new.
    pub fn to_token(&mut self, word: &str) -> (r: u32)
        requires
            old(self).wf(),
            old(self)@.contains(word@) || old(self)@.len() < u32::MAX,
        ensures
            final(self).wf(),
            r < final(self)@.len(),
            final(self)@ == register(old(self)@, word@),
            r == token_of(final(self)@, word@),
            final(self)@[r as int] == word@,
            !old(self)@.contains(word@) ==> r == old(self)@.len(),
    {
        match self.to_token_opt(word) {
            Some(id) => {
                proof {
                    lemma_token_of(self@, word@, id as int);
                }
                id
            },
            None => {
                let id = self.id_to_word.len() as u32;
                self.id_to_word.push(word.to_owned());
                assert(self@ =~= old(self)@.push(word@));
                proof {
                    lemma_register_round_trip(old(self)@, word@);
                    lemma_token_of(self@, word@, id as int);
                }
                id
            },
        }
    }

    /// Returns the word of `token`, or the empty string for an unknown token.
    pub fn to_word(&self, token: u32) -> (r: &str)
        ensures
            (token as int) < self@.len() ==> r@ == self@[token as int],
            (token as int) >= self@.len() ==> r@ == Seq::<char>::empty(),
    {
        if (token as usize) < self.id_to_word.len() {
            self.id_to_word[token as usize].as_str()
        } else {
            proof {
                reveal_strlit("");
            }
            ""
        }
    }
}

/// The words after `w` has been registered.
pub open spec fn register(words: Seq<Seq<char>>, w: Seq<char>) -> Seq<Seq<char>> {
    if words.contains(w) {
        words
    } else {
        words.push(w)
    }
}

/// The position of `w` among `words`.
pub open spec fn token_of(words: Seq<Seq<char>>, w: Seq<char>) -> int {
    choose|i: int| 0 <= i < words.len() && words[i] == w
}

proof fn lemma_token_of(words: Seq<Seq<char>>, w: Seq<char>, i: int)
    requires
        words_unique(words),
        0 <= i < words.len(),
        words[i] == w,
    ensures
        token_of(words, w) == i,
{
    assert(words.contains(w));
}

/// Registering a word keeps the words unique, reading its token back gives
/// the word, and registering it a second time changes nothing and gives the
/// same token.
pub proof fn lemma_register_round_trip(words: Seq<Seq<char>>, w: Seq<char>)
    requires
        words_unique(words),
    ensures
        words_unique(register(words, w)),
        register(words, w).contains(w),
        0 <= token_of(register(words, w), w) < register(words, w).len(),
        register(words, w)[token_of(register(words, w), w)] == w,
        register(register(words, w), w) == register(words, w),
        token_of(register(register(words, w), w), w) == token_of(register(words, w), w),
{
    let r = register(words, w);
    if !words.contains(w) {
        assert(r[words.len() as int] == w);
        assert forall|i: int, j: int| 0 <= i < j < r.len() implies r[i] != r[j] by {
            if j == words.len() {
                assert(words[i] == r[i]);
            } else {
                assert(words[i] == r[i] && words[j] == r[j]);
            }
        }
    }
    assert(r.contains(w));
}

} // verus!
