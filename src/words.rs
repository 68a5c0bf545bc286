//! Conversion between bytes and the words of a 256-word vocabulary.
use vstd::prelude::*;
use crate::error::RsError;
use vstd::string::StringSliceAdditionalSpecFns;

verus! {

/// The word of each byte: byte `b` becomes `wordlist[b]`. Fails with `BadVocabulary` when the
/// list has fewer than 256 words.
pub fn to_words(bytes: &[u8], wordlist: &[String]) -> (r: Result<Vec<String>, RsError>)
    ensures
        match r {
            Ok(w) => wordlist@.len() >= 256 && w@.len() == bytes@.len() && forall|i: int|
                0 <= i < bytes@.len() ==> #[trigger] w@[i]@ == wordlist@[bytes@[i] as int]@,
            Err(e) => e == RsError::BadVocabulary && wordlist@.len() < 256,
        },
{
    if wordlist.len() < 256 {
        return Err(RsError::BadVocabulary);
    }
    let mut w: Vec<String> = Vec::new();
    let mut i: usize = 0;
    while i < bytes.len()
        invariant
            wordlist@.len() >= 256,
            i <= bytes@.len(),
            w@.len() == i,
            forall|a: int| 0 <= a < i ==> #[trigger] w@[a]@ == wordlist@[bytes@[a] as int]@,
        decreases bytes.len() - i,
    {
        w.push(wordlist[bytes[i] as usize].clone());
        i = i + 1;
    }
    Ok(w)
}

/// The index of `word` among the first 256 words of the list, if it is there (the first one).
fn word_index(word: &String, wordlist: &[String]) -> (r: Option<u8>)
    requires
        wordlist@.len() >= 256,
    ensures
        match r {
            Some(b) => wordlist@[b as int]@ == word@ && forall|j: int| 0 <= j < b ==> #[trigger] wordlist@[j]@ != word@,
            None => forall|j: int| 0 <= j < 256 ==> #[trigger] wordlist@[j]@ != word@,
        },
{
    let mut j: usize = 0;
    while j < 256
        invariant
            wordlist@.len() >= 256,
            j <= 256,
            forall|a: int| 0 <= a < j ==> #[trigger] wordlist@[a]@ != word@,
        decreases 256 - j,
    {
        if wordlist[j] == *word {
            return Some(j as u8);
        }
        j = j + 1;
    }
    None
}

/// The byte of each word: its index among the first 256 words of the list. Fails with
/// `BadVocabulary` when the list has fewer than 256 words or a word is not among them.
pub fn from_words(words: &[String], wordlist: &[String]) -> (r: Result<Vec<u8>, RsError>)
    ensures
        match r {
            Ok(v) => wordlist@.len() >= 256 && v@.len() == words@.len() && forall|i: int|
                0 <= i < words@.len() ==> #[trigger] wordlist@[v@[i] as int]@ == words@[i]@ && forall|j: int|
                    0 <= j < v@[i] ==> wordlist@[j]@ != words@[i]@,
            Err(e) => e == RsError::BadVocabulary && (wordlist@.len() < 256 || exists|i: int|
                0 <= i < words@.len() && forall|j: int| 0 <= j < 256 ==> wordlist@[j]@ != #[trigger] words@[i]@),
        },
{
    if wordlist.len() < 256 {
        return Err(RsError::BadVocabulary);
    }
    let mut v: Vec<u8> = Vec::new();
    let mut i: usize = 0;
    while i < words.len()
        invariant
            wordlist@.len() >= 256,
            i <= words@.len(),
            v@.len() == i,
            forall|a: int|
                0 <= a < i ==> #[trigger] wordlist@[v@[a] as int]@ == words@[a]@ && forall|j: int|
                    0 <= j < v@[a] ==> wordlist@[j]@ != words@[a]@,
        decreases words.len() - i,
    {
        let word = &words[i];
        proof {
            assert(word@ == words@[i as int]@);
        }
        match word_index(word, wordlist) {
            Some(b) => {
                let ghost old_v = v@;
                v.push(b);
                proof {
                    assert forall|a: int|
                        0 <= a < i + 1 implies #[trigger] wordlist@[v@[a] as int]@ == words@[a]@ && forall|j: int|
                            0 <= j < v@[a] ==> wordlist@[j]@ != words@[a]@ by {
                        if a < i {
                            assert(v@[a] == old_v[a]);
                        }
                    }
                }
            },
            None => {
                proof {
                    assert(0 <= i < words@.len() && forall|j: int| 0 <= j < 256 ==> wordlist@[j]@ != words@[i as int]@);
                }
                return Err(RsError::BadVocabulary);
            },
        }
        i = i + 1;
    }
    Ok(v)
}

/// Blank bytes that are trimmed from the ends of a line.
pub open spec fn is_blank(b: u8) -> bool {
    b == 32 || b == 9 || b == 13 || b == 11 || b == 12
}

/// The index of the first newline at or after `i`, or the end of the text.
pub open spec fn line_end(t: Seq<u8>, i: int) -> int
    decreases t.len() - i,
{
    if i >= t.len() {
        t.len() as int
    } else if t[i] == 10 {
        i
    } else {
        line_end(t, i + 1)
    }
}

/// The first non-blank index in `[a, b)`, or `b`.
pub open spec fn skip_blank(t: Seq<u8>, a: int, b: int) -> int
    decreases b - a,
{
    if a >= b || !is_blank(t[a]) {
        a
    } else {
        skip_blank(t, a + 1, b)
    }
}

/// The end of `[a, b)` without its trailing blanks.
pub open spec fn trim_end(t: Seq<u8>, a: int, b: int) -> int
    decreases b - a,
{
    if b <= a || !is_blank(t[b - 1]) {
        b
    } else {
        trim_end(t, a, b - 1)
    }
}

/// The byte ranges of the trimmed, non-blank lines of `t` from index `i` on.
pub open spec fn word_spans(t: Seq<u8>, i: int) -> Seq<(int, int)>
    decreases t.len() - i,
{
    if i < 0 || i >= t.len() {
        Seq::empty()
    } else {
        let e = line_end(t, i);
        let a = skip_blank(t, i, e);
        let b = trim_end(t, a, e);
        let rest = if i <= e < t.len() {
            word_spans(t, e + 1)
        } else {
            Seq::empty()
        };
        if a < b {
            seq![(a, b)] + rest
        } else {
            rest
        }
    }
}

/// The vocabulary of a word-list text: its first 256 trimmed, non-blank lines.
pub open spec fn vocabulary_spans(t: Seq<u8>) -> Seq<(int, int)> {
    let w = word_spans(t, 0);
    if w.len() > 256 {
        w.take(256)
    } else {
        w
    }
}

/// The byte ranges of the vocabulary in a word-list text: one word per line, blank lines
/// skipped, blanks trimmed from both ends, the first 256 such lines.
pub fn vocabulary(text: &str) -> (r: Vec<(usize, usize)>)
    ensures
        r@.map_values(|p: (usize, usize)| (p.0 as int, p.1 as int)) == vocabulary_spans(text.spec_bytes()),
{
    let t = text.as_bytes();
    let n = t.len();
    let ghost tb = t@;
    let mut out: Vec<(usize, usize)> = Vec::new();
    let mut i: usize = 0;
    while i < n && out.len() < 256
        invariant
            tb == t@,
            n == tb.len(),
            i <= n,
            out@.len() <= 256,
            out@.map_values(|p: (usize, usize)| (p.0 as int, p.1 as int)) + word_spans(tb, i as int)
                == word_spans(tb, 0),
        decreases n - i,
    {
        let mut e: usize = i;
        while e < n && t[e] != 10
            invariant
                tb == t@,
                n == tb.len(),
                i <= e <= n,
                line_end(tb, e as int) == line_end(tb, i as int),
            decreases n - e,
        {
            e = e + 1;
        }
        let mut a: usize = i;
        while a < e && (t[a] == 32 || t[a] == 9 || t[a] == 13 || t[a] == 11 || t[a] == 12)
            invariant
                tb == t@,
                n == tb.len(),
                i <= a <= e <= n,
                skip_blank(tb, a as int, e as int) == skip_blank(tb, i as int, e as int),
            decreases e - a,
        {
            a = a + 1;
        }
        let mut b: usize = e;
        while b > a && (t[b - 1] == 32 || t[b - 1] == 9 || t[b - 1] == 13 || t[b - 1] == 11 || t[b - 1] == 12)
            invariant
                tb == t@,
                n == tb.len(),
                a <= b <= e <= n,
                trim_end(tb, a as int, b as int) == trim_end(tb, a as int, e as int),
            decreases b,
        {
            b = b - 1;
        }
        let ghost before = out@.map_values(|p: (usize, usize)| (p.0 as int, p.1 as int));
        proof {
            assert(e as int == line_end(tb, i as int));
            assert(a as int == skip_blank(tb, i as int, e as int));
            assert(b as int == trim_end(tb, a as int, e as int));
        }
        if a < b {
            out.push((a, b));
            proof {
                assert(out@.map_values(|p: (usize, usize)| (p.0 as int, p.1 as int)) =~= before.push((a as int, b as int)));
            }
        }
        let ghost next: int = if e < n { e + 1 } else { n as int };
        proof {
            let rest = if e < n { word_spans(tb, e + 1) } else { Seq::<(int, int)>::empty() };
            assert(word_spans(tb, i as int) == if (a as int) < (b as int) { seq![(a as int, b as int)] + rest } else { rest });
            if e >= n {
                assert(word_spans(tb, n as int) =~= Seq::<(int, int)>::empty());
            }
            if (a as int) < (b as int) {
                assert(before.push((a as int, b as int)) + word_spans(tb, next) =~= before + (seq![(a as int, b as int)] + rest));
            }
        }
        i = if e < n { e + 1 } else { n };
    }
    proof {
        let v = out@.map_values(|p: (usize, usize)| (p.0 as int, p.1 as int));
        let w = word_spans(tb, 0);
        if i >= n {
            assert(word_spans(tb, i as int) =~= Seq::<(int, int)>::empty());
            assert(v + Seq::<(int, int)>::empty() =~= v);
        } else {
            assert(v.len() == 256);
            assert(w.take(256) =~= v);
            if w.len() == 256 {
                assert(w =~= v);
            }
        }
    }
    out
}

} // verus!
