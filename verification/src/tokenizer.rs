//! A model of the identifier-splitting analyzer: text is cut into maximal
//! runs of lowercase letters, one uppercase letter with its lowercase tail,
//! digits, or non-alphanumeric bytes — so `camelCase`, `PascalCase` and
//! `snake_case` identifiers all fall apart into their words. Tokens longer
//! than forty bytes are dropped and the rest are lowercased, as the index's
//! analyzer does before optional stemming.

use vstd::prelude::*;

use crate::text::lower_bytes;
use crate::text::lower_vec;
use crate::text::copy_range;

verus! {

pub open spec fn is_lower_byte(b: u8) -> bool {
    97 <= b <= 122
}

pub open spec fn is_upper_byte(b: u8) -> bool {
    65 <= b <= 90
}

pub open spec fn is_digit_byte(b: u8) -> bool {
    48 <= b <= 57
}

pub open spec fn is_alnum_byte(b: u8) -> bool {
    is_lower_byte(b) || is_upper_byte(b) || is_digit_byte(b)
}

/// End of the run of lowercase letters starting at `i`.
pub open spec fn lower_run_end(s: Seq<u8>, i: int) -> int
    decreases s.len() - i,
{
    if 0 <= i < s.len() && is_lower_byte(s[i]) {
        lower_run_end(s, i + 1)
    } else {
        i
    }
}

/// End of the run of digits starting at `i`.
pub open spec fn digit_run_end(s: Seq<u8>, i: int) -> int
    decreases s.len() - i,
{
    if 0 <= i < s.len() && is_digit_byte(s[i]) {
        digit_run_end(s, i + 1)
    } else {
        i
    }
}

/// End of the run of non-alphanumeric bytes starting at `i`.
pub open spec fn other_run_end(s: Seq<u8>, i: int) -> int
    decreases s.len() - i,
{
    if 0 <= i < s.len() && !is_alnum_byte(s[i]) {
        other_run_end(s, i + 1)
    } else {
        i
    }
}

/// Where the token starting at byte `i` ends: a lowercase run, an uppercase
/// letter with its lowercase tail, a digit run, or a run of separators.
pub open spec fn token_end(s: Seq<u8>, i: int) -> int {
    if !(0 <= i < s.len()) {
        i
    } else if is_lower_byte(s[i]) {
        lower_run_end(s, i)
    } else if is_upper_byte(s[i]) {
        lower_run_end(s, i + 1)
    } else if is_digit_byte(s[i]) {
        digit_run_end(s, i)
    } else {
        other_run_end(s, i)
    }
}

/// The tokens the analyzer produces from byte `i` on: each token's text,
/// lowercased, with tokens longer than forty bytes dropped.
pub open spec fn analyzer_tokens(s: Seq<u8>, i: int) -> Seq<Seq<u8>>
    decreases s.len() - i,
{
    if i < 0 || i >= s.len() {
        Seq::empty()
    } else {
        let e0 = token_end(s, i);
        let e = if e0 <= i {
            i + 1
        } else if e0 > s.len() {
            s.len() as int
        } else {
            e0
        };
        let rest = analyzer_tokens(s, e);
        if e - i > 40 {
            rest
        } else {
            seq![lower_bytes(s.subrange(i, e))] + rest
        }
    }
}

proof fn lemma_lower_run_ge(s: Seq<u8>, i: int)
    ensures
        lower_run_end(s, i) >= i,
    decreases s.len() - i,
{
    if 0 <= i < s.len() && is_lower_byte(s[i]) {
        lemma_lower_run_ge(s, i + 1);
    }
}

proof fn lemma_digit_run_ge(s: Seq<u8>, i: int)
    ensures
        digit_run_end(s, i) >= i,
    decreases s.len() - i,
{
    if 0 <= i < s.len() && is_digit_byte(s[i]) {
        lemma_digit_run_ge(s, i + 1);
    }
}

proof fn lemma_other_run_ge(s: Seq<u8>, i: int)
    ensures
        other_run_end(s, i) >= i,
    decreases s.len() - i,
{
    if 0 <= i < s.len() && !is_alnum_byte(s[i]) {
        lemma_other_run_ge(s, i + 1);
    }
}

fn is_lower_b(b: u8) -> (r: bool)
    ensures
        r == is_lower_byte(b),
{
    97 <= b && b <= 122
}

fn is_upper_b(b: u8) -> (r: bool)
    ensures
        r == is_upper_byte(b),
{
    65 <= b && b <= 90
}

fn is_digit_b(b: u8) -> (r: bool)
    ensures
        r == is_digit_byte(b),
{
    48 <= b && b <= 57
}

fn scan_lower_end(s: &[u8], from: usize) -> (r: usize)
    requires
        from <= s@.len(),
    ensures
        r == lower_run_end(s@, from as int),
        from <= r <= s@.len(),
{
    let n = s.len();
    let mut j = from;
    while j < n && is_lower_b(s[j])
        invariant
            from <= j <= n,
            n == s@.len(),
            lower_run_end(s@, from as int) == lower_run_end(s@, j as int),
        decreases n - j,
    {
        j = j + 1;
    }
    j
}

fn scan_digit_end(s: &[u8], from: usize) -> (r: usize)
    requires
        from <= s@.len(),
    ensures
        r == digit_run_end(s@, from as int),
        from <= r <= s@.len(),
{
    let n = s.len();
    let mut j = from;
    while j < n && is_digit_b(s[j])
        invariant
            from <= j <= n,
            n == s@.len(),
            digit_run_end(s@, from as int) == digit_run_end(s@, j as int),
        decreases n - j,
    {
        j = j + 1;
    }
    j
}

fn scan_other_end(s: &[u8], from: usize) -> (r: usize)
    requires
        from <= s@.len(),
    ensures
        r == other_run_end(s@, from as int),
        from <= r <= s@.len(),
{
    let n = s.len();
    let mut j = from;
    while j < n && !(is_lower_b(s[j]) || is_upper_b(s[j]) || is_digit_b(s[j]))
        invariant
            from <= j <= n,
            n == s@.len(),
            other_run_end(s@, from as int) == other_run_end(s@, j as int),
        decreases n - j,
    {
        j = j + 1;
    }
    j
}

/// Splits `content` as the identifier analyzer does and lowercases the
/// tokens, dropping those longer than forty bytes.
pub fn tokenize_identifiers(content: &[u8]) -> (r: Vec<Vec<u8>>)
    ensures
        r.deep_view() == analyzer_tokens(content@, 0),
{
    let n = content.len();
    let mut r: Vec<Vec<u8>> = Vec::new();
    let mut i: usize = 0;
    while i < n
        invariant
            i <= n,
            n == content@.len(),
            analyzer_tokens(content@, 0) == r.deep_view() + analyzer_tokens(content@, i as int),
        decreases n - i,
    {
        let b = content[i];
        let e: usize = if is_lower_b(b) {
            scan_lower_end(content, i)
        } else if is_upper_b(b) {
            scan_lower_end(content, i + 1)
        } else if is_digit_b(b) {
            scan_digit_end(content, i)
        } else {
            scan_other_end(content, i)
        };
        proof {
            assert(e as int == token_end(content@, i as int));
            if is_lower_byte(content@[i as int]) {
                assert(lower_run_end(content@, i as int) == lower_run_end(content@, i + 1));
                lemma_lower_run_ge(content@, i + 1);
            } else if is_upper_byte(content@[i as int]) {
                lemma_lower_run_ge(content@, i + 1);
            } else if is_digit_byte(content@[i as int]) {
                assert(digit_run_end(content@, i as int) == digit_run_end(content@, i + 1));
                lemma_digit_run_ge(content@, i + 1);
            } else {
                assert(other_run_end(content@, i as int) == other_run_end(content@, i + 1));
                lemma_other_run_ge(content@, i + 1);
            }
            assert(e > i);
        }
        if e - i <= 40 {
            let tok = lower_vec(copy_range(content, i, e).as_slice());
            let ghost dv0 = r.deep_view();
            let ghost tokv = tok@;
            r.push(tok);
            proof {
                assert(r.deep_view() =~~= dv0.push(tokv));
                assert(seq![lower_bytes(content@.subrange(i as int, e as int))]
                    + analyzer_tokens(content@, e as int) == analyzer_tokens(
                    content@,
                    i as int,
                ));
                assert(dv0.push(tokv) =~= dv0 + seq![tokv]);
                assert(analyzer_tokens(content@, 0) =~~= r.deep_view() + analyzer_tokens(
                    content@,
                    e as int,
                ));
            }
        }
        i = e;
    }
    proof {
        assert(r.deep_view() =~~= r.deep_view() + analyzer_tokens(content@, n as int));
    }
    r
}

/// A word as naming conventions use it: nonempty, all lowercase letters,
/// and short enough for the analyzer to keep.
pub open spec fn is_lower_word(w: Seq<u8>) -> bool {
    &&& 0 < w.len() <= 40
    &&& forall|k: int| 0 <= k < w.len() ==> is_lower_byte(#[trigger] w[k])
}

/// `w` with its first letter uppercased.
pub open spec fn capitalize(w: Seq<u8>) -> Seq<u8> {
    seq![(w[0] - 32) as u8] + w.subrange(1, w.len() as int)
}

/// The words from `k` on, spelled as one camelCase identifier: the first
/// word as it is, every later word capitalized.
pub open spec fn camel_case(words: Seq<Seq<u8>>, k: int) -> Seq<u8>
    decreases words.len() - k,
{
    if k < 0 || k >= words.len() {
        Seq::empty()
    } else if k == 0 {
        words[0] + camel_case(words, 1)
    } else {
        capitalize(words[k]) + camel_case(words, k + 1)
    }
}

/// The words from `k` on, joined with underscores.
pub open spec fn snake_case(words: Seq<Seq<u8>>, k: int) -> Seq<u8>
    decreases words.len() - k,
{
    if k < 0 || k >= words.len() {
        Seq::empty()
    } else if k == words.len() - 1 {
        words[k]
    } else {
        words[k] + seq![95u8] + snake_case(words, k + 1)
    }
}

/// What the analyzer makes of a snake_case identifier: the words, with a
/// one-byte underscore token between each pair.
pub open spec fn snake_tokens(words: Seq<Seq<u8>>, k: int) -> Seq<Seq<u8>>
    decreases words.len() - k,
{
    if k < 0 || k >= words.len() {
        Seq::empty()
    } else if k == words.len() - 1 {
        seq![words[k]]
    } else {
        seq![words[k], seq![95u8]] + snake_tokens(words, k + 1)
    }
}

proof fn lemma_lower_run_region(s: Seq<u8>, i: int, j: int)
    requires
        0 <= i <= j <= s.len(),
        forall|k: int| i <= k < j ==> is_lower_byte(#[trigger] s[k]),
        j < s.len() ==> !is_lower_byte(s[j]),
    ensures
        lower_run_end(s, i) == j,
    decreases j - i,
{
    if i < j {
        lemma_lower_run_region(s, i + 1, j);
    }
}

proof fn lemma_lower_word_fixed(w: Seq<u8>)
    requires
        forall|k: int| 0 <= k < w.len() ==> is_lower_byte(#[trigger] w[k]),
    ensures
        lower_bytes(w) == w,
{
    assert(lower_bytes(w) =~= w);
}

proof fn lemma_capitalize_lowers(w: Seq<u8>)
    requires
        is_lower_word(w),
    ensures
        lower_bytes(capitalize(w)) == w,
{
    assert(lower_bytes(capitalize(w)) =~= w);
}

proof fn lemma_camel_suffix(words: Seq<Seq<u8>>, s: Seq<u8>, k: int)
    requires
        forall|t: int| 0 <= t < words.len() ==> is_lower_word(#[trigger] words[t]),
        0 <= k < words.len(),
        s.len() >= camel_case(words, k).len(),
        s.subrange(s.len() - camel_case(words, k).len(), s.len() as int) == camel_case(words, k),
    ensures
        analyzer_tokens(s, s.len() - camel_case(words, k).len()) == words.skip(k),
    decreases words.len() - k,
{
    let w = words[k];
    let piece = if k == 0 {
        w
    } else {
        capitalize(w)
    };
    let rest = camel_case(words, k + 1);
    let p = s.len() - camel_case(words, k).len();
    assert(camel_case(words, k) == piece + rest);
    assert(piece.len() == w.len());
    let e = p + w.len();
    assert forall|t: int| 0 <= t < piece.len() implies s[p + t] == #[trigger] piece[t] by {
        assert(s.subrange(p, s.len() as int)[t] == s[p + t]);
        assert(camel_case(words, k)[t] == (piece + rest)[t]);
    }
    // The word's letters form one maximal lowercase run.
    if k + 1 < words.len() {
        assert(rest == capitalize(words[k + 1]) + camel_case(words, k + 2));
        assert(s[e] == rest[0]) by {
            assert(s.subrange(p, s.len() as int)[piece.len() as int] == s[p + piece.len()]);
            assert(camel_case(words, k)[piece.len() as int] == (piece + rest)[piece.len() as int]);
        }
        assert(rest[0] == capitalize(words[k + 1])[0]);
        assert(capitalize(words[k + 1])[0] == (words[k + 1][0] - 32) as u8);
        assert(is_lower_byte(words[k + 1][0]));
        assert(!is_lower_byte(s[e]));
    } else {
        assert(rest.len() == 0);
        assert(e == s.len());
    }
    if k == 0 {
        assert(is_lower_byte(s[p])) by {
            assert(piece[0] == w[0]);
        }
        assert forall|t: int| p <= t < e implies is_lower_byte(#[trigger] s[t]) by {
            assert(s[t] == piece[t - p]);
        }
        lemma_lower_run_region(s, p, e);
        assert(token_end(s, p) == e);
    } else {
        assert(s[p] == (w[0] - 32) as u8) by {
            assert(s[p + 0] == piece[0]);
            assert(piece[0] == (seq![(w[0] - 32) as u8] + w.subrange(1, w.len() as int))[0]);
        }
        assert(is_upper_byte(s[p]));
        assert forall|t: int| p + 1 <= t < e implies is_lower_byte(#[trigger] s[t]) by {
            assert(s[t] == piece[t - p]);
            assert(piece[t - p] == w.subrange(1, w.len() as int)[t - p - 1]);
        }
        lemma_lower_run_region(s, p + 1, e);
        assert(token_end(s, p) == e);
    }
    assert(s.subrange(p, e) =~= piece);
    lemma_lower_word_fixed(w);
    if k > 0 {
        lemma_capitalize_lowers(w);
    }
    assert(lower_bytes(s.subrange(p, e)) == w);
    if k + 1 < words.len() {
        assert(s.subrange(e as int, s.len() as int) =~= rest) by {
            assert forall|t: int| 0 <= t < rest.len() implies s.subrange(
                e as int,
                s.len() as int,
            )[t] == rest[t] by {
                assert(s.subrange(e as int, s.len() as int)[t] == s[e + t]);
                assert(s.subrange(p, s.len() as int)[piece.len() + t] == s[p + piece.len() + t]);
                assert(camel_case(words, k)[piece.len() + t] == (piece + rest)[piece.len() + t]);
            }
        }
        lemma_camel_suffix(words, s, k + 1);
        assert(analyzer_tokens(s, e) == words.skip(k + 1));
    } else {
        assert(analyzer_tokens(s, e) =~= Seq::<Seq<u8>>::empty());
    }
    assert(analyzer_tokens(s, p) == seq![w] + analyzer_tokens(s, e));
    assert(seq![w] + words.skip(k + 1) =~= words.skip(k));
}

/// Identifier tokenization, camelCase side: an identifier spelled from
/// lowercase words in camelCase falls apart into exactly those words.
pub proof fn lemma_camel_case_tokens(words: Seq<Seq<u8>>)
    requires
        words.len() > 0,
        forall|t: int| 0 <= t < words.len() ==> is_lower_word(#[trigger] words[t]),
    ensures
        analyzer_tokens(camel_case(words, 0), 0) == words,
{
    let s = camel_case(words, 0);
    assert(s.subrange(0, s.len() as int) =~= s);
    lemma_camel_suffix(words, s, 0);
    assert(words.skip(0) =~= words);
}

proof fn lemma_snake_suffix(words: Seq<Seq<u8>>, s: Seq<u8>, k: int)
    requires
        forall|t: int| 0 <= t < words.len() ==> is_lower_word(#[trigger] words[t]),
        0 <= k < words.len(),
        s.len() >= snake_case(words, k).len(),
        s.subrange(s.len() - snake_case(words, k).len(), s.len() as int) == snake_case(words, k),
    ensures
        analyzer_tokens(s, s.len() - snake_case(words, k).len()) == snake_tokens(words, k),
    decreases words.len() - k,
{
    let w = words[k];
    let p = s.len() - snake_case(words, k).len();
    let e = p + w.len();
    assert forall|t: int| 0 <= t < snake_case(words, k).len() implies s[p + t] == #[trigger] snake_case(
        words,
        k,
    )[t] by {
        assert(s.subrange(p, s.len() as int)[t] == s[p + t]);
    }
    if k == words.len() - 1 {
        assert(snake_case(words, k) == w);
        assert(e == s.len());
        assert forall|t: int| p <= t < e implies is_lower_byte(#[trigger] s[t]) by {
            assert(s[t] == snake_case(words, k)[t - p]);
            assert(snake_case(words, k)[t - p] == w[t - p]);
        }
        lemma_lower_run_region(s, p, e);
        assert(token_end(s, p) == e);
        assert(s.subrange(p, e) =~= w);
        lemma_lower_word_fixed(w);
        assert(analyzer_tokens(s, e) =~= Seq::<Seq<u8>>::empty());
        assert(analyzer_tokens(s, p) =~= seq![w]);
    } else {
        let rest = snake_case(words, k + 1);
        assert(snake_case(words, k) == w + seq![95u8] + rest);
        assert forall|t: int| p <= t < e implies is_lower_byte(#[trigger] s[t]) by {
            assert(s[t] == snake_case(words, k)[t - p]);
            assert(snake_case(words, k)[t - p] == (w + seq![95u8] + rest)[t - p]);
            assert((w + seq![95u8] + rest)[t - p] == w[t - p]);
        }
        assert(s[e] == 95u8) by {
            assert(s[e] == snake_case(words, k)[w.len() as int]);
            assert(snake_case(words, k)[w.len() as int] == (w + seq![95u8] + rest)[w.len() as int]);
        }
        assert(!is_lower_byte(s[e]));
        lemma_lower_run_region(s, p, e);
        assert(token_end(s, p) == e);
        assert(s.subrange(p, e) =~= w);
        lemma_lower_word_fixed(w);
        // The separator is one token of its own: the next byte starts the
        // next word.
        assert(rest.len() > 0) by {
            assert(is_lower_word(words[k + 1]));
        }
        assert(rest[0] == words[k + 1][0]) by {
            if k + 1 == words.len() - 1 {
            } else {
                assert(rest == words[k + 1] + seq![95u8] + snake_case(words, k + 2));
            }
        }
        assert(s[e + 1] == rest[0]) by {
            assert(s[e + 1] == snake_case(words, k)[w.len() + 1int]);
            assert(snake_case(words, k)[w.len() + 1int] == (w + seq![95u8] + rest)[w.len() + 1int]);
        }
        assert(is_lower_byte(s[e + 1]));
        assert(!is_alnum_byte(s[e]));
        assert(other_run_end(s, e) == e + 1) by {
            assert(other_run_end(s, e + 1) == e + 1);
        }
        assert(token_end(s, e) == e + 1);
        assert(s.subrange(e as int, e + 1) =~= seq![95u8]);
        assert(lower_bytes(seq![95u8]) =~= seq![95u8]);
        assert(s.subrange(e + 1, s.len() as int) =~= rest) by {
            assert forall|t: int| 0 <= t < rest.len() implies s.subrange(
                e + 1,
                s.len() as int,
            )[t] == rest[t] by {
                assert(s.subrange(e + 1, s.len() as int)[t] == s[e + 1 + t]);
                assert(s[e + 1 + t] == snake_case(words, k)[w.len() + 1int + t]);
                assert(snake_case(words, k)[w.len() + 1int + t] == (w + seq![95u8] + rest)[w.len() + 1int
                    + t]);
            }
        }
        lemma_snake_suffix(words, s, k + 1);
        assert(analyzer_tokens(s, e + 1) == snake_tokens(words, k + 1));
        assert(analyzer_tokens(s, e) == seq![seq![95u8]] + snake_tokens(words, k + 1));
        assert(analyzer_tokens(s, p) == seq![w] + (seq![seq![95u8]] + snake_tokens(
            words,
            k + 1,
        )));
        assert(seq![w] + (seq![seq![95u8]] + snake_tokens(words, k + 1)) =~= snake_tokens(
            words,
            k,
        ));
    }
}

/// Identifier tokenization, snake_case side: the same words joined with
/// underscores fall apart into those words with a one-byte separator token
/// between each pair — the word tokens agree with the camelCase spelling,
/// so a query in either convention shares its word terms with the other.
pub proof fn lemma_snake_case_tokens(words: Seq<Seq<u8>>)
    requires
        words.len() > 0,
        forall|t: int| 0 <= t < words.len() ==> is_lower_word(#[trigger] words[t]),
    ensures
        analyzer_tokens(snake_case(words, 0), 0) == snake_tokens(words, 0),
{
    let s = snake_case(words, 0);
    assert(s.subrange(0, s.len() as int) =~= s);
    lemma_snake_suffix(words, s, 0);
}

} // verus!
