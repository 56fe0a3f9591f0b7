use vstd::prelude::*;
use vstd::string::StrSliceExecFns;

verus! {

/// The Unicode `White_Space` characters (the characters for which `char::is_whitespace` holds).
pub open spec fn is_white_space(c: char) -> bool {
    ||| ('\u{9}' <= c && c <= '\u{d}')
    ||| c == ' '
    ||| c == '\u{85}'
    ||| c == '\u{a0}'
    ||| c == '\u{1680}'
    ||| ('\u{2000}' <= c && c <= '\u{200a}')
    ||| c == '\u{2028}'
    ||| c == '\u{2029}'
    ||| c == '\u{202f}'
    ||| c == '\u{205f}'
    ||| c == '\u{3000}'
}

pub fn is_white_space_exec(c: char) -> (r: bool)
    ensures
        r == is_white_space(c),
{
    ('\u{9}' <= c && c <= '\u{d}') || c == ' ' || c == '\u{85}' || c == '\u{a0}' || c == '\u{1680}'
        || ('\u{2000}' <= c && c <= '\u{200a}') || c == '\u{2028}' || c == '\u{2029}' || c
        == '\u{202f}' || c == '\u{205f}' || c == '\u{3000}'
}

/// The words of `s`: its maximal runs of characters that are not white space, in order.
pub open spec fn words(s: Seq<char>) -> Seq<Seq<char>>
    decreases s.len(),
{
    if s.len() == 0 {
        Seq::empty()
    } else {
        let w = words(s.drop_last());
        let c = s.last();
        if is_white_space(c) {
            w
        } else if s.len() >= 2 && !is_white_space(s[s.len() - 2]) {
            w.update(w.len() - 1, w.last().push(c))
        } else {
            w.push(seq![c])
        }
    }
}

/// A text that ends with a character other than white space has at least one word.
proof fn lemma_words_nonempty(s: Seq<char>)
    requires
        s.len() > 0,
        !is_white_space(s.last()),
    ensures
        words(s).len() > 0,
    decreases s.len(),
{
    if s.len() >= 2 && !is_white_space(s[s.len() - 2]) {
        lemma_words_nonempty(s.drop_last());
    }
}

/// `needle` occurs in `hay` as a contiguous piece.
pub open spec fn occurs_in(needle: Seq<char>, hay: Seq<char>) -> bool {
    exists|k: int| 0 <= k && k + needle.len() <= hay.len() && #[trigger] hay.subrange(k, k + needle.len()) == needle
}

/// Each pattern word occurs in a string word, the string words taken in order, each at most
/// once; the first string word that fits is used.
pub open spec fn words_match(string_words: Seq<Seq<char>>, pattern_words: Seq<Seq<char>>) -> bool
    decreases string_words.len(),
{
    if pattern_words.len() == 0 {
        true
    } else if string_words.len() == 0 {
        false
    } else if occurs_in(pattern_words[0], string_words[0]) {
        words_match(string_words.drop_first(), pattern_words.drop_first())
    } else {
        words_match(string_words.drop_first(), pattern_words)
    }
}

fn chars_of(s: &str) -> (r: Vec<char>)
    ensures
        r@ == s@,
{
    let n = s.unicode_len();
    let mut result: Vec<char> = Vec::new();
    let mut i: usize = 0;
    while i < n
        invariant
            n == s@.len(),
            i <= n,
            result@ == s@.take(i as int),
        decreases n - i,
    {
        result.push(s.get_char(i));
        i = i + 1;
        assert(result@ =~= s@.take(i as int));
    }
    assert(s@.take(i as int) =~= s@);
    result
}

fn split_words(s: &Vec<char>) -> (r: Vec<Vec<char>>)
    ensures
        r@.len() == words(s@).len(),
        forall|i: int| 0 <= i < r@.len() ==> #[trigger] r@[i]@ == words(s@)[i],
{
    let mut result: Vec<Vec<char>> = Vec::new();
    let mut i: usize = 0;
    while i < s.len()
        invariant
            i <= s@.len(),
            result@.len() == words(s@.take(i as int)).len(),
            forall|j: int| 0 <= j < result@.len() ==> #[trigger] result@[j]@ == words(s@.take(i as int))[j],
        decreases s@.len() - i,
    {
        let c = s[i];
        let ghost prev = s@.take(i as int);
        assert(s@.take(i + 1).drop_last() =~= prev);
        if is_white_space_exec(c) {
        } else if i >= 1 && !is_white_space_exec(s[i - 1]) {
            assert(s@.take(i + 1)[i - 1] == s@[i - 1]);
            proof {
                assert(prev.last() == s@[i - 1]);
                lemma_words_nonempty(prev);
            }
            let last_index = result.len() - 1;
            let mut last = result.pop().unwrap();
            last.push(c);
            result.push(last);
            assert(result@.len() == words(s@.take(i + 1)).len());
        } else {
            let mut word: Vec<char> = Vec::new();
            word.push(c);
            assert(word@ =~= seq![c]);
            result.push(word);
        }
        i = i + 1;
    }
    assert(s@.take(i as int) =~= s@);
    result
}

fn occurs_in_exec(needle: &Vec<char>, hay: &Vec<char>) -> (r: bool)
    ensures
        r == occurs_in(needle@, hay@),
{
    if needle.len() > hay.len() {
        return false;
    }
    let mut k: usize = 0;
    while k <= hay.len() - needle.len()
        invariant
            needle@.len() <= hay@.len(),
            k <= hay@.len() - needle@.len() + 1,
            forall|m: int| 0 <= m < k ==> #[trigger] hay@.subrange(m, m + needle@.len()) != needle@,
        decreases hay@.len() - k,
    {
        let mut m: usize = 0;
        let mut same = true;
        while m < needle.len()
            invariant
                k + needle.len() <= hay.len(),
                m <= needle@.len(),
                same == (forall|t: int| 0 <= t < m ==> hay@[k + t] == needle@[t]),
            decreases needle@.len() - m,
        {
            assert(k + m < hay@.len());
            if hay[k + m] != needle[m] {
                same = false;
            }
            m = m + 1;
        }
        if same {
            assert(hay@.subrange(k as int, k + needle@.len()) =~= needle@);
            return true;
        }
        assert(hay@.subrange(k as int, k + needle@.len()) != needle@) by {
            let t = choose|t: int| 0 <= t < needle@.len() && hay@[k + t] != needle@[t];
            assert(hay@.subrange(k as int, k + needle@.len())[t] == hay@[k + t]);
        }
        k = k + 1;
    }
    false
}

/// `true` when the words of `pattern` occur, in order, in distinct words of `string`
/// (each pattern word inside one string word).
pub fn contains_noncontiguous(string: &str, pattern: &str) -> (r: bool)
    ensures
        r == words_match(words(string@), words(pattern@)),
{
    let string_chars = chars_of(string);
    let pattern_chars = chars_of(pattern);
    let string_words = split_words(&string_chars);
    let pattern_words = split_words(&pattern_chars);
    let ghost sw = words(string@);
    let ghost pw = words(pattern@);
    let mut i: usize = 0;
    let mut j: usize = 0;
    assert(sw.skip(0) =~= sw);
    assert(pw.skip(0) =~= pw);
    while i < pattern_words.len()
        invariant
            sw == words(string@),
            pw == words(pattern@),
            i <= pw.len(),
            j <= sw.len(),
            pattern_words@.len() == pw.len(),
            string_words@.len() == sw.len(),
            forall|t: int| 0 <= t < pattern_words@.len() ==> #[trigger] pattern_words@[t]@ == pw[t],
            forall|t: int| 0 <= t < string_words@.len() ==> #[trigger] string_words@[t]@ == sw[t],
            words_match(sw.skip(j as int), pw.skip(i as int)) == words_match(sw, pw),
        decreases sw.len() - j,
    {
        if j >= string_words.len() {
            assert(sw.skip(j as int).len() == 0);
            assert(pw.skip(i as int).len() > 0);
            assert(!words_match(sw.skip(j as int), pw.skip(i as int)));
            return false;
        }
        let found = occurs_in_exec(&pattern_words[i], &string_words[j]);
        assert(sw.skip(j as int)[0] == sw[j as int]);
        assert(pw.skip(i as int)[0] == pw[i as int]);
        assert(sw.skip(j as int).drop_first() =~= sw.skip(j + 1));
        assert(pw.skip(i as int).drop_first() =~= pw.skip(i + 1));
        j = j + 1;
        if found {
            i = i + 1;
        }
    }
    assert(pw.skip(i as int).len() == 0);
    true
}

/// A word occurs in itself.
proof fn lemma_occurs_in_self(w: Seq<char>)
    ensures
        occurs_in(w, w),
{
    assert(w.subrange(0int, 0int + w.len()) =~= w);
}

/// Every list of words matches itself.
pub proof fn lemma_words_match_self(ws: Seq<Seq<char>>)
    ensures
        words_match(ws, ws),
    decreases ws.len(),
{
    if ws.len() > 0 {
        lemma_occurs_in_self(ws[0]);
        lemma_words_match_self(ws.drop_first());
    }
}

/// Matching: no words always match; a match uses a distinct string word for each pattern
/// word, so it needs at least as many string words; no string words match only no words.
pub proof fn lemma_words_match_laws(sw: Seq<Seq<char>>, pw: Seq<Seq<char>>)
    ensures
        words_match(sw, Seq::empty()),
        words_match(sw, pw) ==> pw.len() <= sw.len(),
        sw.len() == 0 ==> (words_match(sw, pw) <==> pw.len() == 0),
    decreases sw.len(),
{
    if sw.len() > 0 {
        lemma_words_match_laws(sw.drop_first(), pw);
        if pw.len() > 0 {
            lemma_words_match_laws(sw.drop_first(), pw.drop_first());
        }
    }
}

} // verus!
