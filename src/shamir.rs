//! Secret sharing over a 256-word vocabulary, built on the Reed-Solomon codec.
use vstd::prelude::*;
use crate::encoder::{
    data_intact, encoded, stream_wf, stripes, usable, RSEncoder, RSStream, VandermondeEncoder,
};
use crate::matrix::selected;
use crate::encoding::Encoding;
use crate::error::RsError;
use crate::finite_field::ExpLogField;
use crate::matrix::copy_bytes;
use crate::words::{from_words, to_words};

verus! {

/// Relies on `rand::random::<u8>`: a byte from the thread-local generator. Any value may come.
#[verifier::external_body]
fn random_byte() -> u8 {
    rand::random::<u8>()
}

/// `length` random bytes.
pub fn gen_random_bytes(length: usize) -> (r: Vec<u8>)
    ensures
        r@.len() == length,
{
    let mut r: Vec<u8> = Vec::new();
    let mut i: usize = 0;
    while i < length
        invariant
            i <= length,
            r@.len() == i,
        decreases length - i,
    {
        r.push(random_byte());
        i = i + 1;
    }
    r
}

/// The encoding for `shards` shards of which `required` suffice: one column for the secret and
/// one per shard.
pub open spec fn sharing_encoding(shards: nat, required: nat) -> Encoding {
    Encoding { data_chunks: required as u8, code_chunks: (shards - required + 1) as u8 }
}

/// `first` is the first stripe of an encoding of `data`.
pub open spec fn first_stripe_of(encoding: Encoding, data: Seq<u8>, first: Seq<u8>) -> bool {
    exists|s: RSStream|
        encoded(&s, encoding, data) && (VandermondeEncoder {}).parity_holds(&s, data) && first
            == stripes(&s)[0]
}

/// `w` is a word of the vocabulary.
pub open spec fn in_vocabulary(w: Seq<char>, wordlist: Seq<String>) -> bool {
    exists|b: u8| w == wordlist[b as int]@
}

/// `p` holds the secret and the shards for the random chunks `random`: `shards + 1` phrases as
/// long as `random`, where word `i` of phrase `j` is the vocabulary word of column `j` of the
/// stripe that encodes `random[i]`.
pub open spec fn shares_of(
    p: Seq<Vec<String>>,
    random: Seq<Seq<u8>>,
    shards: nat,
    required: nat,
    wordlist: Seq<String>,
) -> bool {
    &&& wordlist.len() >= 256
    &&& p.len() == shards + 1
    &&& forall|j: int| 0 <= j <= shards ==> #[trigger] p[j]@.len() == random.len()
    &&& exists|firsts: Seq<Seq<u8>>|
        #![trigger firsts.len()]
        {
            &&& firsts.len() == random.len()
            &&& forall|i: int|
                0 <= i < random.len() ==> #[trigger] first_stripe_of(
                    sharing_encoding(shards, required),
                    random[i],
                    firsts[i],
                )
            &&& forall|i: int, j: int|
                0 <= i < random.len() && 0 <= j <= shards ==> (#[trigger] p[j]@[i])@
                    == wordlist[firsts[i][j] as int]@
        }
}

/// The secret and the shards for the given random data: position `i` of every phrase comes from
/// the stripe that encodes `random[i]`; phrase 0 is the secret and phrase `j` is shard `j`,
/// each word the vocabulary word of that column's byte.
#[verifier::rlimit(100)]
pub fn shamir_phrases(random: &Vec<Vec<u8>>, shards: usize, required: usize, wordlist: &[String]) -> (r:
    Result<Vec<Vec<String>>, RsError>)
    requires
        1 <= required <= shards,
        shards + 1 <= 255,
        forall|i: int| 0 <= i < random@.len() ==> #[trigger] random@[i]@.len() == required,
    ensures
        match r {
            Ok(p) => shares_of(
                p@,
                random@.map_values(|v: Vec<u8>| v@),
                shards as nat,
                required as nat,
                wordlist@,
            ),
            Err(e) => e == RsError::BadVocabulary && wordlist@.len() < 256,
        },
{
    if wordlist.len() < 256 {
        return Err(RsError::BadVocabulary);
    }
    let encoding = Encoding { data_chunks: required as u8, code_chunks: (shards - required + 1) as u8 };
    let encoder = VandermondeEncoder {};
    let field = ExpLogField::new();
    let n = shards + 1;
    let mut firsts: Vec<Vec<u8>> = Vec::new();
    let mut i: usize = 0;
    while i < random.len()
        invariant
            1 <= required <= shards,
            n == shards + 1,
            n <= 255,
            encoding == sharing_encoding(shards as nat, required as nat),
            forall|a: int| 0 <= a < random@.len() ==> #[trigger] random@[a]@.len() == required,
            i <= random@.len(),
            firsts@.len() == i,
            forall|a: int| 0 <= a < i ==> #[trigger] first_stripe_of(encoding, random@[a]@, firsts@[a]@),
            forall|a: int| 0 <= a < i ==> #[trigger] firsts@[a]@.len() == n,
        decreases random.len() - i,
    {
        let s = encoder.encode_bytes(encoding, &field, random[i].as_slice())?;
        proof {
            assert(s.codes@.len() >= 1) by {
                assert(random@[i as int]@.len() == required);
                vstd::arithmetic::div_mod::lemma_fundamental_div_mod_converse((required + required - 1) as int, required as int, 1, (required - 1) as int);
            }
            assert(stripes(&s)[0] == s.codes@[0]@);
        }
        let first = copy_bytes(&s.codes[0]);
        let ghost old_firsts = firsts@;
        firsts.push(first);
        proof {
            assert(firsts@[i as int]@ == stripes(&s)[0]);
            assert(encoded(&s, encoding, random@[i as int]@) && (VandermondeEncoder {}).parity_holds(&s, random@[i as int]@)
                && firsts@[i as int]@ == stripes(&s)[0]);
            assert(first_stripe_of(encoding, random@[i as int]@, firsts@[i as int]@));
            assert forall|a: int| 0 <= a < i implies #[trigger] firsts@[a] == old_firsts[a] by {}
        }
        i = i + 1;
    }
    let mut phrases: Vec<Vec<String>> = Vec::new();
    let mut j: usize = 0;
    while j < n
        invariant
            n == shards + 1,
            n <= 255,
            wordlist@.len() >= 256,
            firsts@.len() == random@.len(),
            forall|a: int| 0 <= a < firsts@.len() ==> #[trigger] firsts@[a]@.len() == n,
            encoding == sharing_encoding(shards as nat, required as nat),
            forall|a: int| 0 <= a < random@.len() ==> #[trigger] first_stripe_of(encoding, random@[a]@, firsts@[a]@),
            j <= n,
            phrases@.len() == j,
            forall|b: int| 0 <= b < j ==> #[trigger] phrases@[b]@.len() == random@.len(),
            forall|b: int, a: int|
                0 <= b < j && 0 <= a < random@.len() ==> (#[trigger] phrases@[b]@[a])@ == wordlist@[firsts@[a]@[b] as int]@,
        decreases n - j,
    {
        let mut column: Vec<u8> = Vec::new();
        let mut a: usize = 0;
        while a < firsts.len()
            invariant
                j < n,
                forall|a: int| 0 <= a < firsts@.len() ==> #[trigger] firsts@[a]@.len() == n,
                a <= firsts@.len(),
                column@.len() == a,
                forall|t: int| 0 <= t < a ==> #[trigger] column@[t] == firsts@[t]@[j as int],
            decreases firsts.len() - a,
        {
            column.push(firsts[a][j]);
            a = a + 1;
        }
        let words = match to_words(column.as_slice(), wordlist) {
            Ok(w) => w,
            Err(e) => {
                return Err(e);
            },
        };
        phrases.push(words);
        j = j + 1;
    }
    proof {
        let fs = firsts@.map_values(|f: Vec<u8>| f@);
        let rs = random@.map_values(|v: Vec<u8>| v@);
        assert forall|i: int| 0 <= i < random@.len() implies #[trigger] first_stripe_of(
            sharing_encoding(shards as nat, required as nat),
            rs[i],
            fs[i],
        ) by {
            assert(first_stripe_of(encoding, random@[i]@, firsts@[i]@));
        }
        assert forall|i: int, j: int|
            0 <= i < random@.len() && 0 <= j <= shards implies (#[trigger] phrases@[j]@[i])@
            == wordlist@[fs[i][j] as int]@ by {}
        assert(fs.len() == random@.len());
        assert(shares_of(phrases@, rs, shards as nat, required as nat, wordlist@));
    }
    Ok(phrases)
}

/// Generates a random secret of `length` words and `shards` shards, any `required` of which
/// restore it. The result holds the secret first, then the shards.
pub fn shamir(shards: usize, required: usize, length: usize, wordlist: &[String]) -> (r: Result<
    Vec<Vec<String>>,
    RsError,
>)
    requires
        1 <= required <= shards,
        shards + 1 <= 255,
    ensures
        match r {
            Ok(p) => exists|random: Seq<Seq<u8>>|
                #![trigger random.len()]
                random.len() == length && (forall|i: int|
                    0 <= i < length ==> #[trigger] random[i].len() == required) && shares_of(
                    p@,
                    random,
                    shards as nat,
                    required as nat,
                    wordlist@,
                ),
            Err(e) => e == RsError::BadVocabulary && wordlist@.len() < 256,
        },
{
    let mut random: Vec<Vec<u8>> = Vec::new();
    let mut i: usize = 0;
    while i < length
        invariant
            i <= length,
            random@.len() == i,
            forall|a: int| 0 <= a < i ==> #[trigger] random@[a]@.len() == required,
        decreases length - i,
    {
        random.push(gen_random_bytes(required));
        i = i + 1;
    }
    let r = shamir_phrases(&random, shards, required, wordlist);
    proof {
        let rs = random@.map_values(|v: Vec<u8>| v@);
        assert(rs.len() == length);
        assert(forall|i: int| 0 <= i < length ==> #[trigger] rs[i].len() == required);
    }
    r
}

/// The word is among the first 256 words of the list.
pub open spec fn known_word(w: Seq<char>, wordlist: Seq<String>) -> bool {
    exists|b: int| 0 <= b < 256 && b < wordlist.len() && #[trigger] wordlist[b]@ == w
}

/// Every given phrase consists of known words of a list of at least 256 words.
pub open spec fn phrases_known(phrases: Seq<Option<Vec<String>>>, wordlist: Seq<String>) -> bool {
    forall|j: int|
        0 <= j < phrases.len() ==> (#[trigger] phrases[j] matches Some(p) ==> wordlist.len() >= 256
            && forall|i: int| 0 <= i < p@.len() ==> known_word(#[trigger] p@[i]@, wordlist))
}

/// All given phrases have the same number of words.
pub open spec fn phrases_aligned(phrases: Seq<Option<Vec<String>>>) -> bool {
    forall|a: int, b: int|
        0 <= a < phrases.len() && 0 <= b < phrases.len() ==> (#[trigger] phrases[a] matches Some(
            p,
        ) ==> (#[trigger] phrases[b] matches Some(q) ==> p@.len() == q@.len()))
}

/// Which positions hold a phrase.
pub open spec fn given(phrases: Seq<Option<Vec<String>>>) -> Seq<bool> {
    Seq::new(phrases.len(), |j: int| phrases[j] is Some)
}

/// `b` is the index of the first word of the list that reads `w`.
pub open spec fn first_index(wordlist: Seq<String>, w: Seq<char>, b: u8) -> bool {
    &&& (b as int) < wordlist.len()
    &&& wordlist[b as int]@ == w
    &&& forall|c: int| 0 <= c < b ==> #[trigger] wordlist[c]@ != w
}

/// The first 256 words of the list are distinct.
pub open spec fn distinct_vocabulary(wordlist: Seq<String>) -> bool {
    wordlist.len() >= 256 && forall|a: int, b: int|
        0 <= a < b < 256 ==> #[trigger] wordlist[a]@ != #[trigger] wordlist[b]@
}

/// `phrases` are the shares `p` (made from `random`, with `required` of them sufficing) with
/// some of them missing but at least `required` given, over a vocabulary of distinct words.
pub open spec fn shares_given(
    phrases: Seq<Option<Vec<String>>>,
    required: nat,
    wordlist: Seq<String>,
    p: Seq<Vec<String>>,
    random: Seq<Seq<u8>>,
) -> bool {
    &&& phrases.len() >= 2
    &&& 1 <= required < phrases.len()
    &&& shares_of(p, random, (phrases.len() - 1) as nat, required, wordlist)
    &&& forall|i: int| 0 <= i < random.len() ==> #[trigger] random[i].len() == required
    &&& distinct_vocabulary(wordlist)
    &&& selected(given(phrases)).len() >= required
    &&& forall|j: int|
        0 <= j < phrases.len() ==> (#[trigger] phrases[j] matches Some(q) ==> q@.len() == p[j]@.len()
            && forall|i: int| 0 <= i < q@.len() ==> (#[trigger] q@[i])@ == p[j]@[i]@)
}

/// Restores the secret from positional phrases (`None` for a missing one; position 0 is the
/// secret itself, position `j` shard `j`) of which `required` suffice. Fails with
/// `BadVocabulary` exactly when a given phrase has a word outside the vocabulary (or the list
/// is short), else with `DimensionMismatch` exactly when the given phrases differ in length,
/// else with `TooManyErasures` exactly when fewer than `required` phrases are given.
#[verifier::rlimit(100)]
pub fn unshamir(phrases: &[Option<Vec<String>>], required: usize, wordlist: &[String]) -> (r: Result<
    Vec<String>,
    RsError,
>)
    requires
        1 <= required <= phrases@.len(),
        phrases@.len() <= 255,
    ensures
        match r {
            Ok(w) => {
                &&& phrases_known(phrases@, wordlist@)
                &&& phrases_aligned(phrases@)
                &&& selected(given(phrases@)).len() >= required
                &&& forall|i: int| 0 <= i < w@.len() ==> #[trigger] in_vocabulary(w@[i]@, wordlist@)
                &&& forall|j: int|
                    0 <= j < phrases@.len() ==> (#[trigger] phrases@[j] matches Some(p) ==> w@.len()
                        == p@.len())
            },
            Err(e) => {
                ||| e == RsError::BadVocabulary && !phrases_known(phrases@, wordlist@)
                ||| e == RsError::DimensionMismatch && phrases_known(phrases@, wordlist@)
                    && !phrases_aligned(phrases@)
                ||| e == RsError::TooManyErasures && phrases_known(phrases@, wordlist@)
                    && phrases_aligned(phrases@) && selected(given(phrases@)).len() < required
            },
        },
        forall|p: Seq<Vec<String>>, random: Seq<Seq<u8>>|
            #[trigger] shares_given(phrases@, required as nat, wordlist@, p, random) ==> (r matches Ok(w)
                && w@.len() == p[0]@.len() && forall|i: int|
                0 <= i < w@.len() ==> (#[trigger] w@[i])@ == p[0]@[i]@),
{
    let ghost hyp = exists|pr: (Seq<Vec<String>>, Seq<Seq<u8>>)|
        shares_given(phrases@, required as nat, wordlist@, pr.0, pr.1);
    let ghost pr = choose|pr: (Seq<Vec<String>>, Seq<Seq<u8>>)|
        shares_given(phrases@, required as nat, wordlist@, pr.0, pr.1);
    proof {
        if hyp {
            lemma_shares_given_valid(phrases@, required as nat, wordlist@, pr.0, pr.1);
        }
        assert forall|p: Seq<Vec<String>>, random: Seq<Seq<u8>>|
            #[trigger] shares_given(phrases@, required as nat, wordlist@, p, random) implies hyp by {
            assert(shares_given(phrases@, required as nat, wordlist@, (p, random).0, (p, random).1));
        }
    }
    let n = phrases.len();
    let mut bytes: Vec<Vec<u8>> = Vec::new();
    let mut valid: Vec<bool> = Vec::new();
    let mut j: usize = 0;
    while j < n
        invariant
            n == phrases@.len(),
            j <= n,
            bytes@.len() == j,
            valid@ == given(phrases@).subrange(0, j as int),
            forall|a: int| 0 <= a < j ==> (#[trigger] phrases@[a] matches Some(p) ==> bytes@[a]@.len() == p@.len()),
            forall|a: int| 0 <= a < j ==> (phrases@[a] is None ==> #[trigger] bytes@[a]@.len() == 0),
            forall|a: int|
                0 <= a < j ==> (#[trigger] phrases@[a] matches Some(p) ==> wordlist@.len() >= 256
                    && forall|i: int| 0 <= i < p@.len() ==> known_word(#[trigger] p@[i]@, wordlist@)),
            forall|a: int|
                0 <= a < j ==> (#[trigger] phrases@[a] matches Some(q) ==> forall|i: int|
                    0 <= i < q@.len() ==> first_index(wordlist@, (#[trigger] q@[i])@, bytes@[a]@[i])),
        decreases n - j,
    {
        match &phrases[j] {
            Some(words) => {
                let b = match from_words(words.as_slice(), wordlist) {
                    Ok(b) => b,
                    Err(e) => {
                        proof {
                            if wordlist@.len() >= 256 {
                                let i = choose|i: int|
                                    0 <= i < words@.len() && forall|c: int| 0 <= c < 256 ==> wordlist@[c]@ != #[trigger] words@[i]@;
                                assert(!known_word(words@[i]@, wordlist@));
                            }
                            assert(!phrases_known(phrases@, wordlist@));
                        }
                        return Err(e);
                    },
                };
                proof {
                    assert forall|i: int| 0 <= i < words@.len() implies known_word(#[trigger] words@[i]@, wordlist@) by {
                        assert(wordlist@[b@[i] as int]@ == words@[i]@);
                    }
                    assert forall|i: int| 0 <= i < words@.len() implies first_index(wordlist@, (#[trigger] words@[i])@, b@[i]) by {}
                }
                let ghost old_bytes = bytes@;
                bytes.push(b);
                proof {
                    assert forall|a: int| 0 <= a < j implies #[trigger] bytes@[a] == old_bytes[a] by {}
                }
                valid.push(true);
            },
            None => {
                let ghost old_bytes = bytes@;
                bytes.push(Vec::new());
                proof {
                    assert forall|a: int| 0 <= a < j implies #[trigger] bytes@[a] == old_bytes[a] by {}
                }
                valid.push(false);
            },
        }
        proof {
            assert(given(phrases@).subrange(0, j + 1) =~= given(phrases@).subrange(0, j as int).push(valid@[j as int]));
        }
        j = j + 1;
    }
    proof {
        assert(valid@ =~= given(phrases@));
        assert(phrases_known(phrases@, wordlist@));
    }
    // The given phrases must all have the length of the first one.
    let mut length: usize = 0;
    let mut found = false;
    let mut j: usize = 0;
    while j < n
        invariant
            n == phrases@.len(),
            bytes@.len() == n,
            valid@ == given(phrases@),
            forall|a: int| 0 <= a < n ==> (#[trigger] phrases@[a] matches Some(p) ==> bytes@[a]@.len() == p@.len()),
            j <= n,
            phrases_known(phrases@, wordlist@),
            forall|a: int|
                0 <= a < n ==> (#[trigger] phrases@[a] matches Some(q) ==> forall|i: int|
                    0 <= i < q@.len() ==> first_index(wordlist@, (#[trigger] q@[i])@, bytes@[a]@[i])),
            found ==> exists|a: int| 0 <= a < j && #[trigger] valid@[a] && bytes@[a]@.len() == length,
            forall|a: int| 0 <= a < j && #[trigger] valid@[a] ==> found && bytes@[a]@.len() == length,
        decreases n - j,
    {
        if valid[j] {
            if !found {
                length = bytes[j].len();
                found = true;
            } else if bytes[j].len() != length {
                proof {
                    let a = choose|a: int| 0 <= a < j && #[trigger] valid@[a] && bytes@[a]@.len() == length;
                    assert(phrases@[a] is Some && phrases@[j as int] is Some);
                    assert(!phrases_aligned(phrases@));
                }
                return Err(RsError::DimensionMismatch);
            }
        }
        j = j + 1;
    }
    proof {
        assert forall|a: int, b: int|
            0 <= a < phrases@.len() && 0 <= b < phrases@.len() implies (#[trigger] phrases@[a] matches Some(
            p,
        ) ==> (#[trigger] phrases@[b] matches Some(q) ==> p@.len() == q@.len())) by {
            assert(valid@[a] == (phrases@[a] is Some));
            assert(valid@[b] == (phrases@[b] is Some));
        }
    }
    let count = valid_count(&valid);
    if count < required {
        return Err(RsError::TooManyErasures);
    }
    proof {
        crate::matrix::lemma_selected_bounds(valid@);
        assert(valid@[selected(valid@)[0]]);
        assert(found);
        assert(wordlist@.len() >= 256) by {
            let a = choose|a: int| 0 <= a < n && #[trigger] valid@[a] && bytes@[a]@.len() == length;
            assert(phrases@[a] is Some);
        }
    }
    proof {
        assert forall|p: Seq<Vec<String>>, random: Seq<Seq<u8>>|
            #[trigger] shares_given(phrases@, required as nat, wordlist@, p, random) implies length
            == random.len() by {
            let a = choose|a: int| 0 <= a < n && #[trigger] valid@[a] && bytes@[a]@.len() == length;
            assert(phrases@[a] is Some);
        }
    }
    let encoding = Encoding { data_chunks: required as u8, code_chunks: (n - required) as u8 };
    let encoder = VandermondeEncoder {};
    let field = ExpLogField::new();
    let mut secret: Vec<String> = Vec::new();
    let mut i: usize = 0;
    while i < length
        invariant
            n == phrases@.len(),
            n <= 255,
            1 <= required <= n,
            wordlist@.len() >= 256,
            encoding.data_chunks == required,
            encoding.data_chunks + encoding.code_chunks == n,
            bytes@.len() == n,
            valid@ == given(phrases@),
            selected(valid@).len() >= required,
            forall|a: int| 0 <= a < n ==> (#[trigger] valid@[a] ==> bytes@[a]@.len() == length),
            forall|a: int| 0 <= a < n ==> (#[trigger] phrases@[a] matches Some(p) ==> p@.len() == length),
            secret@.len() == i,
            i <= length,
            forall|a: int|
                0 <= a < n ==> (#[trigger] phrases@[a] matches Some(q) ==> forall|i: int|
                    0 <= i < q@.len() ==> first_index(wordlist@, (#[trigger] q@[i])@, bytes@[a]@[i])),
            forall|p: Seq<Vec<String>>, random: Seq<Seq<u8>>|
                #[trigger] shares_given(phrases@, required as nat, wordlist@, p, random) ==> length
                    == random.len() && forall|t: int| 0 <= t < i ==> (#[trigger] secret@[t])@ == p[0]@[t]@,
            forall|t: int| 0 <= t < secret@.len() ==> #[trigger] in_vocabulary(secret@[t]@, wordlist@),
        decreases length - i,
    {
        let mut stripe: Vec<u8> = Vec::new();
        let mut c: usize = 0;
        while c < n
            invariant
                n == bytes@.len(),
                n == valid@.len(),
                forall|a: int| 0 <= a < n ==> (#[trigger] valid@[a] ==> bytes@[a]@.len() == length),
                i < length,
                c <= n,
                stripe@.len() == c,
                forall|a: int| 0 <= a < c ==> #[trigger] stripe@[a] == if valid@[a] { bytes@[a]@[i as int] } else { 0u8 },
            decreases n - c,
        {
            let v = if valid[c] {
                bytes[c][i]
            } else {
                0
            };
            stripe.push(v);
            c = c + 1;
        }
        let mut codes: Vec<Vec<u8>> = Vec::new();
        codes.push(stripe);
        let stream = RSStream { length: required, encoding: encoding, codes: codes, valid: copy_flags(&valid) };
        proof {
            assert(stream.codes@[0]@.len() == n);
            assert(usable(stream.valid@, n as nat) =~= valid@);
        }
        let data = match encoder.decode_bytes(&stream, &field) {
            Ok(d) => d,
            Err(_) => {
                proof {
                    assert(false);
                }
                return Err(RsError::TooManyErasures);
            },
        };
        let b = data[0];
        proof {
            assert forall|p: Seq<Vec<String>>, random: Seq<Seq<u8>>|
                #[trigger] shares_given(phrases@, required as nat, wordlist@, p, random) implies wordlist@[b as int]@
                == p[0]@[i as int]@ by {
                lemma_restored_byte(phrases@, required as nat, wordlist@, p, random, bytes@.map_values(|v: Vec<u8>| v@), valid@, stream, data@, i as int);
            }
        }
        let word = wordlist[b as usize].clone();
        let ghost old_secret = secret@;
        secret.push(word);
        proof {
            assert forall|t: int| 0 <= t < secret@.len() implies #[trigger] in_vocabulary(secret@[t]@, wordlist@) by {
                if t < old_secret.len() {
                    assert(secret@[t] == old_secret[t]);
                } else {
                    assert((secret@[t])@ == wordlist@[b as int]@);
                }
            }
            assert forall|p: Seq<Vec<String>>, random: Seq<Seq<u8>>|
                #[trigger] shares_given(phrases@, required as nat, wordlist@, p, random) implies forall|t: int|
                0 <= t < i + 1 ==> (#[trigger] secret@[t])@ == p[0]@[t]@ by {
                assert forall|t: int| 0 <= t < i + 1 implies (#[trigger] secret@[t])@ == p[0]@[t]@ by {
                    if t < old_secret.len() {
                        assert(secret@[t] == old_secret[t]);
                    }
                }
            }
        }
        i = i + 1;
    }
    proof {
        assert forall|p: Seq<Vec<String>>, random: Seq<Seq<u8>>|
            #[trigger] shares_given(phrases@, required as nat, wordlist@, p, random) implies secret@.len()
            == p[0]@.len() by {
            assert(p[0]@.len() == random.len());
        }
    }
    Ok(secret)
}

/// Given shares pass every check of `unshamir`.
proof fn lemma_shares_given_valid(
    phrases: Seq<Option<Vec<String>>>,
    required: nat,
    wordlist: Seq<String>,
    p: Seq<Vec<String>>,
    random: Seq<Seq<u8>>,
)
    requires
        shares_given(phrases, required, wordlist, p, random),
    ensures
        phrases_known(phrases, wordlist),
        phrases_aligned(phrases),
{
    let shards = (phrases.len() - 1) as nat;
    let firsts = choose|firsts: Seq<Seq<u8>>|
        #![trigger firsts.len()]
        {
            &&& firsts.len() == random.len()
            &&& forall|i: int|
                0 <= i < random.len() ==> #[trigger] first_stripe_of(
                    sharing_encoding(shards, required),
                    random[i],
                    firsts[i],
                )
            &&& forall|i: int, j: int|
                0 <= i < random.len() && 0 <= j <= shards ==> (#[trigger] p[j]@[i])@
                    == wordlist[firsts[i][j] as int]@
        };
    assert forall|j: int| 0 <= j < phrases.len() implies (#[trigger] phrases[j] matches Some(q) ==> wordlist.len() >= 256
        && forall|i: int| 0 <= i < q@.len() ==> known_word(#[trigger] q@[i]@, wordlist)) by {
        if phrases[j] is Some {
            let q = phrases[j]->Some_0;
            assert forall|i: int| 0 <= i < q@.len() implies known_word(#[trigger] q@[i]@, wordlist) by {
                assert((p[j]@[i])@ == wordlist[firsts[i][j] as int]@);
            }
        }
    }
}

/// The index of a word of a vocabulary of distinct words is its position.
proof fn lemma_first_index_unique(wordlist: Seq<String>, b: int, v: u8)
    requires
        distinct_vocabulary(wordlist),
        0 <= b < 256,
        first_index(wordlist, wordlist[b]@, v),
    ensures
        v as int == b,
{
    if (v as int) < b {
        assert(wordlist[v as int]@ != wordlist[b]@);
    } else if b < v as int {
        assert(wordlist[b]@ != wordlist[b]@);
    }
}

/// With given shares, the decoded first byte of position `i` is the secret's byte.
#[verifier::rlimit(100)]
proof fn lemma_restored_byte(
    phrases: Seq<Option<Vec<String>>>,
    required: nat,
    wordlist: Seq<String>,
    p: Seq<Vec<String>>,
    random: Seq<Seq<u8>>,
    bytes: Seq<Seq<u8>>,
    valid: Seq<bool>,
    stream: RSStream,
    data: Seq<u8>,
    i: int,
)
    requires
        shares_given(phrases, required, wordlist, p, random),
        0 <= i < random.len(),
        bytes.len() == phrases.len(),
        valid == given(phrases),
        forall|a: int|
            0 <= a < phrases.len() ==> (#[trigger] phrases[a] matches Some(q) ==> forall|t: int|
                0 <= t < q@.len() ==> first_index(wordlist, (#[trigger] q@[t])@, bytes[a][t])),
        stream.length == required,
        stream.encoding == sharing_encoding((phrases.len() - 1) as nat, required),
        stream.codes@.len() == 1,
        stream.valid@ == valid,
        stream_wf(&stream),
        forall|a: int|
            0 <= a < phrases.len() ==> #[trigger] stripes(&stream)[0][a] == if valid[a] { bytes[a][i] } else { 0u8 },
        data.len() == required,
        data_intact(&stream) ==> data == crate::encoder::data_columns(&stream),
        !data_intact(&stream) ==> crate::encoder::interpolated(&stream, data),
    ensures
        wordlist[data[0] as int]@ == p[0]@[i]@,
{
    let n = phrases.len();
    let shards = (n - 1) as nat;
    let enc = sharing_encoding(shards, required);
    let firsts = choose|firsts: Seq<Seq<u8>>|
        #![trigger firsts.len()]
        {
            &&& firsts.len() == random.len()
            &&& forall|i: int|
                0 <= i < random.len() ==> #[trigger] first_stripe_of(enc, random[i], firsts[i])
            &&& forall|i: int, j: int|
                0 <= i < random.len() && 0 <= j <= shards ==> (#[trigger] p[j]@[i])@
                    == wordlist[firsts[i][j] as int]@
        };
    let fi = firsts[i];
    assert(first_stripe_of(enc, random[i], fi));
    let s = choose|s: RSStream|
        encoded(&s, enc, random[i]) && (VandermondeEncoder {}).parity_holds(&s, random[i]) && fi
            == stripes(&s)[0];
    assert(s.codes@.len() == 1) by {
        assert(random[i].len() == required);
        vstd::arithmetic::div_mod::lemma_fundamental_div_mod_converse(
            (required + required - 1) as int,
            required as int,
            1,
            (required - 1) as int,
        );
    }
    crate::matrix::lemma_selected_bounds(usable(valid, n));
    assert(usable(stream.valid@, n) =~= valid);
    assert forall|a: int| 0 <= a < n && valid[a] implies #[trigger] stripes(&stream)[0][a] == stripes(&s)[0][a] by {
        let q = phrases[a]->Some_0;
        assert(first_index(wordlist, (q@[i])@, bytes[a][i]));
        assert((p[a]@[i])@ == wordlist[fi[a] as int]@);
        lemma_first_index_unique(wordlist, fi[a] as int, bytes[a][i]);
    }
    assert(crate::encoder::agrees_on_usable(&stream, &s)) by {
        assert forall|r: int, e: int|
            0 <= r < s.codes@.len() && 0 <= e < crate::encoder::usable_columns(&stream).len() implies #[trigger] stripes(
            &stream,
        )[r][crate::encoder::usable_columns(&stream)[e]] == stripes(&s)[r][crate::encoder::usable_columns(&stream)[e]] by {
            let col = crate::encoder::usable_columns(&stream)[e];
            assert(valid[col]);
        }
    }
    crate::encoder::lemma_vandermonde_erasure_recovery(s, stream, random[i], data);
    assert(fi[0] == crate::encoder::padded(random[i], 0));
    assert((p[0]@[i])@ == wordlist[fi[0] as int]@);
}

/// The number of set flags.
fn valid_count(flags: &Vec<bool>) -> (r: usize)
    ensures
        r == selected(flags@).len(),
{
    let mut count: usize = 0;
    let mut i: usize = 0;
    while i < flags.len()
        invariant
            i <= flags@.len(),
            count == selected(flags@.subrange(0, i as int)).len(),
            count <= i,
        decreases flags.len() - i,
    {
        proof {
            assert(flags@.subrange(0, i + 1).drop_last() =~= flags@.subrange(0, i as int));
        }
        if flags[i] {
            count = count + 1;
        }
        i = i + 1;
    }
    proof {
        assert(flags@.subrange(0, flags@.len() as int) =~= flags@);
    }
    count
}

/// A copy of a flag vector.
fn copy_flags(v: &Vec<bool>) -> (r: Vec<bool>)
    ensures
        r@ == v@,
{
    let mut r: Vec<bool> = Vec::new();
    let mut i: usize = 0;
    while i < v.len()
        invariant
            i <= v@.len(),
            r@ == v@.subrange(0, i as int),
        decreases v.len() - i,
    {
        r.push(v[i]);
        i = i + 1;
    }
    proof {
        assert(r@ == v@);
    }
    r
}

} // verus!
