//! A delimiter-driven token iterator over a borrowed string: each step
//! yields the text up to the next delimiter and advances past it, and the
//! final step yields what remains — so a trailing delimiter yields one
//! last empty token. Unlike the calculator's tokenizer, empty tokens are
//! kept.

use vstd::prelude::*;
use vstd::string::StrSliceExecFns;

verus! {

/// The index of the first occurrence of `d`, if any.
pub open spec fn find_index(s: Seq<char>, d: char) -> Option<int>
    decreases s.len(),
{
    if s.len() == 0 {
        None
    } else if s[0] == d {
        Some(0)
    } else {
        match find_index(s.drop_first(), d) {
            Some(i) => Some(i + 1),
            None => None,
        }
    }
}

/// What `find_index` finds, spelt out over indices.
pub proof fn lemma_find_index(s: Seq<char>, d: char)
    ensures
        match find_index(s, d) {
            Some(i) => 0 <= i < s.len() && s[i] == d && forall|k: int|
                0 <= k < i ==> #[trigger] s[k] != d,
            None => forall|k: int| 0 <= k < s.len() ==> #[trigger] s[k] != d,
        },
    decreases s.len(),
{
    if s.len() > 0 && s[0] != d {
        lemma_find_index(s.drop_first(), d);
        assert(forall|k: int| 1 <= k < s.len() ==> #[trigger] s[k] == s.drop_first()[k - 1]);
    }
}

/// The tokens of `s` split at every occurrence of `d`, empty tokens kept:
/// one more token than there are delimiters.
pub open spec fn split_all(s: Seq<char>, d: char) -> Seq<Seq<char>>
    decreases s.len(),
{
    if s.len() == 0 {
        seq![Seq::<char>::empty()]
    } else if s[0] == d {
        seq![Seq::<char>::empty()] + split_all(s.drop_first(), d)
    } else {
        let rest = split_all(s.drop_first(), d);
        seq![seq![s[0]] + rest[0]] + rest.skip(1)
    }
}

/// There is always at least one token.
pub proof fn lemma_split_all_nonempty(s: Seq<char>, d: char)
    ensures
        split_all(s, d).len() >= 1,
    decreases s.len(),
{
    if s.len() > 0 {
        lemma_split_all_nonempty(s.drop_first(), d);
    }
}

/// One step of splitting: without a delimiter the whole text is the one
/// token; with one, the first token reaches up to it and the rest of the
/// tokens split the text behind it.
pub proof fn lemma_split_step(s: Seq<char>, d: char)
    ensures
        match find_index(s, d) {
            None => split_all(s, d) == seq![s],
            Some(i) => split_all(s, d) == seq![s.take(i)] + split_all(s.skip(i + 1), d),
        },
    decreases s.len(),
{
    lemma_find_index(s, d);
    lemma_split_all_nonempty(s, d);
    if s.len() == 0 {
        assert(s =~= Seq::<char>::empty());
        assert(split_all(s, d) =~= seq![s]);
    } else if s[0] == d {
        assert(s.take(0) =~= Seq::<char>::empty());
        assert(s.skip(1) =~= s.drop_first());
    } else {
        let t = s.drop_first();
        lemma_split_step(t, d);
        lemma_split_all_nonempty(t, d);
        match find_index(s, d) {
            None => {
                assert(find_index(t, d) is None);
                assert(split_all(t, d) == seq![t]);
                assert(split_all(t, d).skip(1) =~= Seq::<Seq<char>>::empty());
                assert(seq![s[0]] + t =~= s);
                assert(split_all(s, d) =~= seq![s]);
            },
            Some(i) => {
                assert(i >= 1);
                assert(find_index(t, d) == Some(i - 1));
                assert(split_all(t, d) == seq![t.take(i - 1)] + split_all(t.skip(i), d));
                assert(split_all(t, d).skip(1) =~= split_all(t.skip(i), d));
                assert(split_all(t, d)[0] == t.take(i - 1));
                assert(seq![s[0]] + t.take(i - 1) =~= s.take(i));
                assert(t.skip(i) =~= s.skip(i + 1));
                assert(split_all(s, d) =~= seq![s.take(i)] + split_all(s.skip(i + 1), d));
            },
        }
    }
}

/// Walks a borrowed string token by token.
pub struct TokenIterator<'a> {
    text: &'a str,
    delimiter: &'a str,
    end: bool,
}

impl<'a> TokenIterator<'a> {
    /// The text still to be walked.
    pub closed spec fn text_view(&self) -> Seq<char> {
        self.text@
    }

    /// Whether the last token has been yielded.
    pub closed spec fn ended(&self) -> bool {
        self.end
    }

    /// The delimiter character.
    pub closed spec fn delim(&self) -> char {
        self.delimiter@[0]
    }

    /// A single-character delimiter.
    pub closed spec fn wf(&self) -> bool {
        self.delimiter@.len() == 1
    }

    pub fn new(input: &'a str, delimiter: &'a str) -> (r: TokenIterator<'a>)
        requires
            delimiter@.len() == 1,
        ensures
            r.wf(),
            r.text_view() == input@,
            r.delim() == delimiter@[0],
            !r.ended(),
    {
        TokenIterator { text: input, delimiter, end: false }
    }

    /// The next token: the text up to the first delimiter, past which the
    /// iterator advances; without a delimiter, all remaining text, after
    /// which the iterator has ended.
    pub fn next(&mut self) -> (r: Option<&'a str>)
        requires
            old(self).wf(),
        ensures
            final(self).wf(),
            final(self).delim() == old(self).delim(),
            old(self).ended() ==> r is None && final(self).ended() && final(self).text_view()
                == old(self).text_view(),
            !old(self).ended() ==> match find_index(old(self).text_view(), old(self).delim()) {
                Some(i) => {
                    &&& r matches Some(tok) && tok@ == old(self).text_view().take(i)
                    &&& final(self).text_view() == old(self).text_view().skip(i + 1)
                    &&& !final(self).ended()
                },
                None => {
                    &&& r matches Some(tok) && tok@ == old(self).text_view()
                    &&& final(self).text_view() == old(self).text_view()
                    &&& final(self).ended()
                },
            },
    {
        if self.end {
            return None;
        }
        proof {
            lemma_find_index(self.text@, self.delimiter@[0]);
        }
        let d = self.delimiter.get_char(0);
        let n = self.text.unicode_len();
        let mut j: usize = 0;
        while j < n
            invariant
                *self == *old(self),
                !self.end,
                self.delimiter@.len() == 1,
                j <= n,
                n == self.text@.len(),
                d == self.delimiter@[0],
                forall|k: int| 0 <= k < j ==> #[trigger] self.text@[k] != d,
            decreases n - j,
        {
            if self.text.get_char(j) == d {
                proof {
                    lemma_find_index(self.text@, d);
                    assert(find_index(self.text@, d) == Some(j as int));
                }
                let ret = self.text.substring_char(0, j);
                self.text = self.text.substring_char(j + 1, n);
                return Some(ret);
            }
            j = j + 1;
        }
        proof {
            lemma_find_index(self.text@, d);
        }
        self.end = true;
        Some(self.text)
    }
}

/// All tokens of `input` at once, exactly the split of the text.
pub fn split_tokens<'a>(input: &'a str, delimiter: &'a str) -> (r: Vec<&'a str>)
    requires
        delimiter@.len() == 1,
    ensures
        r.deep_view() == split_all(input@, delimiter@[0]),
{
    let ghost d = delimiter@[0];
    let mut it = TokenIterator::new(input, delimiter);
    let mut r: Vec<&'a str> = Vec::new();
    proof {
        assert(r.deep_view() =~= Seq::<Seq<char>>::empty());
        assert(Seq::<Seq<char>>::empty() + split_all(input@, d) =~= split_all(input@, d));
    }
    loop
        invariant
            delimiter@.len() == 1,
            d == delimiter@[0],
            it.wf(),
            it.delim() == d,
            !it.ended() ==> r.deep_view() + split_all(it.text_view(), d) == split_all(input@, d),
            it.ended() ==> r.deep_view() == split_all(input@, d),
        decreases (if it.ended() {
            0int
        } else {
            1int
        }), it.text_view().len(),
    {
        let ghost text0 = it.text_view();
        let ghost was_ended = it.ended();
        let ghost r0 = r.deep_view();
        match it.next() {
            Some(tok) => {
                r.push(tok);
                proof {
                    assert(!was_ended);
                    lemma_find_index(text0, d);
                    lemma_split_step(text0, d);
                    assert(r.deep_view() =~~= r0.push(tok@));
                    match find_index(text0, d) {
                        Some(i) => {
                            assert(r0.push(tok@) + split_all(it.text_view(), d) =~= r0 + (seq![
                                text0.take(i),
                            ] + split_all(text0.skip(i + 1), d)));
                        },
                        None => {
                            assert(r0.push(tok@) =~= r0 + seq![text0]);
                        },
                    }
                }
            },
            None => {
                return r;
            },
        }
    }
}

} // verus!
