//! Fuzzy matching of a search text against a name.

use crate::text::{blanks_only_part_words, chars_of, is_space, split_words, views, words};
use vstd::prelude::*;
use vstd::seq_lib::{to_multiset_contains, to_multiset_len, to_multiset_remove};

verus! {

/// What `str::to_lowercase` makes of a text.
pub uninterp spec fn lowercase(text: Seq<char>) -> Seq<char>;

/// The lower-case letter of an ASCII character.
pub open spec fn ascii_lower(c: char) -> char {
    if 'A' <= c && c <= 'Z' {
        (c as u8 + 32) as u8 as char
    } else {
        c
    }
}

/// Whether a text holds ASCII characters only.
pub open spec fn is_ascii_text(text: Seq<char>) -> bool {
    forall|i: int| 0 <= i < text.len() ==> (#[trigger] text[i] as u32) < 128
}

/// `str::to_lowercase`. Of ASCII text it lowers the letters one by one.
#[verifier::external_body]
pub(crate) fn to_lowercase(text: &str) -> (r: String)
    ensures
        r@ == lowercase(text@),
        is_ascii_text(text@) ==> r@ == Seq::new(text@.len(), |i: int| ascii_lower(text@[i])),
{
    text.to_lowercase()
}

/// Number of bytes of a character in UTF-8.
pub open spec fn char_width(c: char) -> nat {
    let n = c as u32;
    if n < 0x80 {
        1
    } else if n < 0x800 {
        2
    } else if n < 0x10000 {
        3
    } else {
        4
    }
}

/// Number of bytes of a text in UTF-8.
pub open spec fn byte_len(text: Seq<char>) -> nat
    decreases text.len(),
{
    if text.len() == 0 {
        0
    } else {
        byte_len(text.drop_last()) + char_width(text.last())
    }
}

fn width_of(c: char) -> (r: u128)
    ensures
        r == char_width(c),
        1 <= r <= 4,
{
    let n: u32 = c as u32;
    if n < 0x80 {
        1
    } else if n < 0x800 {
        2
    } else if n < 0x10000 {
        3
    } else {
        4
    }
}

fn bytes_before(chars: &Vec<char>, n: usize) -> (r: u128)
    requires
        n <= chars@.len(),
    ensures
        r == byte_len(chars@.take(n as int)),
        r <= 4 * n,
{
    let mut sum: u128 = 0;
    let mut i: usize = 0;
    proof {
        assert(chars@.take(0) =~= Seq::<char>::empty());
    }
    while i < n
        invariant
            i <= n <= chars@.len(),
            sum == byte_len(chars@.take(i as int)),
            sum <= 4 * i,
        decreases n - i,
    {
        proof {
            assert(chars@.take(i + 1).drop_last() =~= chars@.take(i as int));
            assert(chars@.take(i + 1).last() == chars@[i as int]);
        }
        sum = sum + width_of(chars[i]);
        i = i + 1;
    }
    sum
}

/// Whether `needle` stands in `hay` at index `i`.
pub open spec fn stands_at(hay: Seq<char>, needle: Seq<char>, i: int) -> bool {
    0 <= i && i + needle.len() <= hay.len() && hay.subrange(i, i + needle.len()) == needle
}

/// The first index at or behind `i` at which `needle` stands in `hay`.
pub open spec fn first_occurrence(hay: Seq<char>, needle: Seq<char>, i: int) -> Option<int>
    decreases hay.len() + 1 - i,
{
    if i < 0 || i > hay.len() {
        None
    } else if stands_at(hay, needle, i) {
        Some(i)
    } else {
        first_occurrence(hay, needle, i + 1)
    }
}

/// The first index at or behind `i` that holds `c`.
pub open spec fn next_index(hay: Seq<char>, c: char, i: int) -> Option<int>
    decreases hay.len() - i,
{
    if i < 0 || i >= hay.len() {
        None
    } else if hay[i] == c {
        Some(i)
    } else {
        next_index(hay, c, i + 1)
    }
}

/// Where the last character of `wanted` falls when its characters are looked
/// up in `hay` one behind the other, each as early as possible.
pub open spec fn spread_end(hay: Seq<char>, wanted: Seq<char>) -> Option<int>
    decreases wanted.len(),
{
    if wanted.len() == 0 {
        None
    } else if wanted.len() == 1 {
        next_index(hay, wanted[0], 0)
    } else {
        match spread_end(hay, wanted.drop_last()) {
            Some(end) => next_index(hay, wanted.last(), end + 1),
            None => None,
        }
    }
}

/// How well `token` fits `candidate`, less being better. A substring counts
/// twice its byte offset and the bytes around it. Otherwise the characters may
/// be spread: the start, four for each character in between, and the length.
pub open spec fn token_score(token: Seq<char>, candidate: Seq<char>) -> Option<nat> {
    let score = match first_occurrence(candidate, token, 0) {
        Some(at) => Some(
            (2 * byte_len(candidate.take(at)) + (byte_len(candidate) - byte_len(token))) as nat,
        ),
        None => match spread_end(candidate, token) {
            Some(end) => {
                let start = next_index(candidate, token[0], 0).unwrap();
                Some(
                    (100 + start + 4 * (end - start - (token.len() - 1)) + candidate.len()) as nat,
                )
            },
            None => None,
        },
    };
    match score {
        Some(n) => if n <= u32::MAX {
            Some(n)
        } else {
            None
        },
        None => None,
    }
}

fn text_at(hay: &Vec<char>, needle: &Vec<char>, i: usize) -> (r: bool)
    requires
        i <= hay@.len(),
    ensures
        r == stands_at(hay@, needle@, i as int),
{
    let n: usize = hay.len();
    if needle.len() > n - i {
        return false;
    }
    let mut k: usize = 0;
    while k < needle.len()
        invariant
            k <= needle@.len(),
            n == hay@.len(),
            i + needle@.len() <= n,
            forall|j: int| 0 <= j < k ==> hay@[i + j] == #[trigger] needle@[j],
        decreases needle@.len() - k,
    {
        if hay[i + k] != needle[k] {
            proof {
                assert(hay@.subrange(i as int, i + needle@.len())[k as int] == hay@[i + k]);
            }
            return false;
        }
        k = k + 1;
    }
    proof {
        assert(hay@.subrange(i as int, i + needle@.len()) =~= needle@);
    }
    true
}

fn find_text(hay: &Vec<char>, needle: &Vec<char>) -> (r: Option<usize>)
    ensures
        first_occurrence(hay@, needle@, 0) == match r {
            Some(at) => Some(at as int),
            None => None,
        },
        r matches Some(at) ==> stands_at(hay@, needle@, at as int),
{
    let mut i: usize = 0;
    let n: usize = hay.len();
    loop
        invariant
            n == hay@.len(),
            i <= n,
            first_occurrence(hay@, needle@, 0) == first_occurrence(hay@, needle@, i as int),
        decreases n - i,
    {
        if text_at(hay, needle, i) {
            return Some(i);
        }
        if i == n {
            assert(first_occurrence(hay@, needle@, n + 1) is None);
            return None;
        }
        i = i + 1;
    }
}

/// Whether `needle` stands anywhere in `hay`.
pub open spec fn contains_text(hay: Seq<char>, needle: Seq<char>) -> bool {
    exists|i: int| stands_at(hay, needle, i)
}

proof fn lemma_first_occurrence(hay: Seq<char>, needle: Seq<char>, i: int, at: int)
    requires
        0 <= i <= at,
        stands_at(hay, needle, at),
    ensures
        first_occurrence(hay, needle, i) is Some,
    decreases at - i,
{
    if i < at && !stands_at(hay, needle, i) {
        lemma_first_occurrence(hay, needle, i + 1, at);
    }
}

/// Whether `needle` stands anywhere in `hay`.
pub fn text_contains(hay: &str, needle: &str) -> (r: bool)
    ensures
        r == contains_text(hay@, needle@),
{
    let h = chars_of(hay);
    let n = chars_of(needle);
    let found = find_text(&h, &n);
    proof {
        if contains_text(hay@, needle@) {
            let at = choose|i: int| stands_at(hay@, needle@, i);
            lemma_first_occurrence(hay@, needle@, 0, at);
        }
    }
    found.is_some()
}

fn find_char(hay: &Vec<char>, c: char, from: usize) -> (r: Option<usize>)
    requires
        from <= hay@.len(),
    ensures
        next_index(hay@, c, from as int) == match r {
            Some(at) => Some(at as int),
            None => None,
        },
        r matches Some(at) ==> from <= at < hay@.len(),
{
    let mut i: usize = from;
    while i < hay.len()
        invariant
            from <= i <= hay@.len(),
            next_index(hay@, c, from as int) == next_index(hay@, c, i as int),
        decreases hay@.len() - i,
    {
        if hay[i] == c {
            return Some(i);
        }
        i = i + 1;
    }
    None
}

proof fn lemma_next_index(hay: Seq<char>, c: char, i: int)
    requires
        0 <= i,
    ensures
        next_index(hay, c, i) matches Some(at) ==> i <= at < hay.len(),
    decreases hay.len() - i,
{
    if i < hay.len() && hay[i] != c {
        lemma_next_index(hay, c, i + 1);
    }
}

proof fn lemma_spread(hay: Seq<char>, wanted: Seq<char>, k: int)
    requires
        0 < k <= wanted.len(),
        spread_end(hay, wanted.take(k)) is None,
    ensures
        spread_end(hay, wanted) is None,
    decreases wanted.len(),
{
    if k < wanted.len() {
        assert(wanted.drop_last().take(k) =~= wanted.take(k));
        lemma_spread(hay, wanted.drop_last(), k);
    } else {
        assert(wanted.take(k) =~= wanted);
    }
}

fn fits_u32(n: u128) -> (r: Option<u32>)
    ensures
        n <= u32::MAX ==> r == Some(n as u32),
        n > u32::MAX ==> r is None,
{
    if n <= 0xffff_ffff {
        Some(n as u32)
    } else {
        None
    }
}

proof fn lemma_byte_len_concat(a: Seq<char>, b: Seq<char>)
    ensures
        byte_len(a + b) == byte_len(a) + byte_len(b),
    decreases b.len(),
{
    if b.len() == 0 {
        assert(a + b =~= a);
    } else {
        assert((a + b).drop_last() =~= a + b.drop_last());
        assert((a + b).last() == b.last());
        lemma_byte_len_concat(a, b.drop_last());
    }
}

/// How well a lower-case token fits a lower-case candidate.
pub fn fuzzy_token_score(token: &str, candidate: &str) -> (r: Option<u32>)
    ensures
        token_score(token@, candidate@) == match r {
            Some(n) => Some(n as nat),
            None => None,
        },
{
    let wanted = chars_of(token);
    let chars = chars_of(candidate);
    if let Some(at) = find_text(&chars, &wanted) {
        let position = bytes_before(&chars, at);
        let total = bytes_before(&chars, chars.len());
        let own = bytes_before(&wanted, wanted.len());
        proof {
            assert(chars@.take(chars@.len() as int) =~= candidate@);
            assert(wanted@.take(wanted@.len() as int) =~= token@);
            let head = candidate@.take(at as int);
            let tail = candidate@.skip(at + token@.len());
            assert(candidate@ =~= head + token@ + tail) by {
                assert(candidate@.subrange(at as int, at + token@.len()) == token@);
            }
            lemma_byte_len_concat(head + token@, tail);
            lemma_byte_len_concat(head, token@);
        }
        return fits_u32(2 * position + (total - own));
    }
    if wanted.len() == 0 {
        return None;
    }
    let start = match find_char(&chars, wanted[0], 0) {
        Some(at) => at,
        None => {
            proof {
                assert(wanted@.take(1) =~= seq![wanted@[0]]);
                lemma_spread(chars@, wanted@, 1);
            }
            return None;
        },
    };
    let mut end: usize = start;
    let mut k: usize = 1;
    proof {
        assert(wanted@.take(1) =~= seq![wanted@[0]]);
    }
    while k < wanted.len()
        invariant
            1 <= k <= wanted@.len(),
            wanted@ == token@,
            chars@ == candidate@,
            first_occurrence(candidate@, token@, 0) is None,
            start + (k - 1) <= end < chars@.len(),
            spread_end(chars@, wanted@.take(k as int)) == Some(end as int),
        decreases wanted@.len() - k,
    {
        proof {
            assert(wanted@.take(k + 1).drop_last() =~= wanted@.take(k as int));
            assert(wanted@.take(k + 1).last() == wanted@[k as int]);
        }
        match find_char(&chars, wanted[k], end + 1) {
            Some(at) => {
                end = at;
            },
            None => {
                proof {
                    lemma_spread(chars@, wanted@, k + 1);
                }
                return None;
            },
        }
        k = k + 1;
    }
    proof {
        assert(wanted@.take(k as int) =~= wanted@);
    }
    let gaps: u128 = (end - start - (wanted.len() - 1)) as u128;
    fits_u32(100 + start as u128 + 4 * gaps + chars.len() as u128)
}

/// The scores of all tokens together, tokens without characters left out.
pub open spec fn tokens_score(tokens: Seq<Seq<char>>, candidate: Seq<char>) -> Option<nat>
    decreases tokens.len(),
{
    if tokens.len() == 0 {
        Some(0)
    } else {
        match tokens_score(tokens.drop_last(), candidate) {
            Some(sum) => if tokens.last().len() == 0 {
                Some(sum)
            } else {
                match token_score(tokens.last(), candidate) {
                    Some(n) => if sum + n <= u32::MAX {
                        Some(sum + n)
                    } else {
                        None
                    },
                    None => None,
                }
            },
            None => None,
        }
    }
}

/// Whether one of the tokens has characters.
pub open spec fn any_token(tokens: Seq<Seq<char>>) -> bool {
    exists|i: int| 0 <= i < tokens.len() && (#[trigger] tokens[i]).len() > 0
}

/// How well lower-case tokens fit a lower-case candidate: each must fit, and
/// there must be one.
pub open spec fn lowered_score(tokens: Seq<Seq<char>>, candidate: Seq<char>) -> Option<nat> {
    if any_token(tokens) {
        tokens_score(tokens, candidate)
    } else {
        None
    }
}

proof fn lemma_tokens_fail(tokens: Seq<Seq<char>>, candidate: Seq<char>, k: int)
    requires
        0 <= k <= tokens.len(),
        tokens_score(tokens.take(k), candidate) is None,
    ensures
        tokens_score(tokens, candidate) is None,
    decreases tokens.len(),
{
    if k < tokens.len() {
        assert(tokens.drop_last().take(k) =~= tokens.take(k));
        lemma_tokens_fail(tokens.drop_last(), candidate, k);
    } else {
        assert(tokens.take(k) =~= tokens);
    }
}

/// How well lower-case tokens fit a lower-case candidate.
pub fn score_lowered(tokens: &Vec<String>, candidate: &str) -> (r: Option<u32>)
    ensures
        lowered_score(views(tokens@), candidate@) == match r {
            Some(n) => Some(n as nat),
            None => None,
        },
{
    let ghost all = views(tokens@);
    let mut matched = false;
    let mut total: u32 = 0;
    let mut i: usize = 0;
    proof {
        assert(all.take(0) =~= Seq::<Seq<char>>::empty());
    }
    while i < tokens.len()
        invariant
            i <= tokens@.len(),
            all == views(tokens@),
            matched == exists|j: int| 0 <= j < i && (#[trigger] all[j]).len() > 0,
            tokens_score(all.take(i as int), candidate@) == Some(total as nat),
        decreases tokens@.len() - i,
    {
        proof {
            assert(all.take(i + 1).drop_last() =~= all.take(i as int));
            assert(all.take(i + 1).last() == all[i as int]);
            assert(all[i as int] == tokens@[i as int]@);
        }
        if !tokens[i].as_str().is_empty() {
            matched = true;
            let next = match fuzzy_token_score(tokens[i].as_str(), candidate) {
                Some(n) => total.checked_add(n),
                None => None,
            };
            match next {
                Some(sum) => {
                    total = sum;
                },
                None => {
                    proof {
                        assert(tokens_score(all.take(i + 1), candidate@) is None);
                        lemma_tokens_fail(all, candidate@, i + 1);
                    }
                    return None;
                },
            }
        }
        i = i + 1;
    }
    proof {
        assert(all.take(i as int) =~= all);
    }
    if matched {
        Some(total)
    } else {
        None
    }
}

/// The words of a text, each in lower case.
pub open spec fn lowered_words(query: Seq<char>) -> Seq<Seq<char>> {
    Seq::new(words(query).len(), |i: int| lowercase(words(query)[i]))
}

/// How well a search text fits a name, case set aside.
pub open spec fn fuzzy_score(query: Seq<char>, candidate: Seq<char>) -> Option<nat> {
    lowered_score(lowered_words(query), lowercase(candidate))
}

/// How well a search text fits a name, case set aside: the sum over its words,
/// each of which must fit. Less is better.
pub fn fuzzy_match_score(query: &str, candidate: &str) -> (r: Option<u32>)
    ensures
        fuzzy_score(query@, candidate@) == match r {
            Some(n) => Some(n as nat),
            None => None,
        },
{
    let candidate = to_lowercase(candidate);
    let parts = split_words(query);
    let mut tokens: Vec<String> = Vec::new();
    let mut i: usize = 0;
    while i < parts.len()
        invariant
            i <= parts@.len(),
            views(parts@) == words(query@),
            views(tokens@) == lowered_words(query@).take(i as int),
        decreases parts@.len() - i,
    {
        let ghost before = tokens@;
        let token = to_lowercase(parts[i].as_str());
        tokens.push(token);
        proof {
            assert(views(parts@).len() == parts@.len());
            assert(views(parts@)[i as int] == parts@[i as int]@);
            assert(views(tokens@) =~= views(before).push(token@));
            assert(views(tokens@) =~= lowered_words(query@).take(i + 1));
        }
        i = i + 1;
    }
    proof {
        assert(views(parts@).len() == parts@.len());
        assert(lowered_words(query@).take(i as int) =~= lowered_words(query@));
    }
    score_lowered(&tokens, candidate.as_str())
}

/// Whether every token fits; tokens without characters always do.
pub open spec fn all_fit(tokens: Seq<Seq<char>>, candidate: Seq<char>) -> bool {
    forall|i: int|
        0 <= i < tokens.len() && (#[trigger] tokens[i]).len() > 0 ==> token_score(
            tokens[i],
            candidate,
        ) is Some
}

/// What a token adds to the score.
pub open spec fn share(token: Seq<char>, candidate: Seq<char>) -> nat {
    match token_score(token, candidate) {
        Some(n) => if token.len() > 0 {
            n
        } else {
            0
        },
        None => 0,
    }
}

/// The scores of all tokens together.
pub open spec fn shares(tokens: Seq<Seq<char>>, candidate: Seq<char>) -> nat
    decreases tokens.len(),
{
    if tokens.len() == 0 {
        0
    } else {
        shares(tokens.drop_last(), candidate) + share(tokens.last(), candidate)
    }
}

proof fn lemma_tokens_score(tokens: Seq<Seq<char>>, candidate: Seq<char>)
    ensures
        tokens_score(tokens, candidate) == if all_fit(tokens, candidate) && shares(
            tokens,
            candidate,
        ) <= u32::MAX {
            Some(shares(tokens, candidate))
        } else {
            None
        },
    decreases tokens.len(),
{
    if tokens.len() > 0 {
        let short = tokens.drop_last();
        lemma_tokens_score(short, candidate);
        if all_fit(tokens, candidate) {
            assert forall|i: int| 0 <= i < short.len() && (#[trigger] short[i]).len() > 0 implies token_score(
                short[i],
                candidate,
            ) is Some by {
                assert(tokens[i] == short[i]);
            }
            assert(tokens[tokens.len() - 1].len() > 0 ==> token_score(
                tokens.last(),
                candidate,
            ) is Some);
        } else if all_fit(short, candidate) {
            let i = choose|i: int|
                0 <= i < tokens.len() && (#[trigger] tokens[i]).len() > 0 && token_score(
                    tokens[i],
                    candidate,
                ) is None;
            if i < short.len() {
                assert(short[i] == tokens[i]);
            }
        }
    }
}

proof fn lemma_shares_remove(tokens: Seq<Seq<char>>, candidate: Seq<char>, i: int)
    requires
        0 <= i < tokens.len(),
    ensures
        shares(tokens, candidate) == shares(tokens.remove(i), candidate) + share(
            tokens[i],
            candidate,
        ),
    decreases tokens.len(),
{
    if i == tokens.len() - 1 {
        assert(tokens.remove(i) =~= tokens.drop_last());
    } else {
        lemma_shares_remove(tokens.drop_last(), candidate, i);
        assert(tokens.remove(i).drop_last() =~= tokens.drop_last().remove(i));
        assert(tokens.remove(i).last() == tokens.last());
    }
}

proof fn lemma_shares_permuted(a: Seq<Seq<char>>, b: Seq<Seq<char>>, candidate: Seq<char>)
    requires
        a.to_multiset() == b.to_multiset(),
    ensures
        shares(a, candidate) == shares(b, candidate),
    decreases a.len(),
{
    to_multiset_len(a);
    to_multiset_len(b);
    if a.len() > 0 {
        let token = a.last();
        assert(a[a.len() - 1] == token);
        to_multiset_contains(a, token);
        to_multiset_contains(b, token);
        let i = choose|i: int| 0 <= i < b.len() && b[i] == token;
        to_multiset_remove(a, a.len() - 1);
        to_multiset_remove(b, i);
        assert(a.remove(a.len() - 1) =~= a.drop_last());
        lemma_shares_remove(b, candidate, i);
        lemma_shares_permuted(a.drop_last(), b.remove(i), candidate);
    }
}

/// The score is the sum of the scores of the tokens. There is none where no
/// token has characters, where one does not fit, or where the sum cannot be
/// represented.
pub proof fn scores_are_sums(tokens: Seq<Seq<char>>, candidate: Seq<char>)
    ensures
        lowered_score(tokens, candidate) == if any_token(tokens) && all_fit(tokens, candidate)
            && shares(tokens, candidate) <= u32::MAX {
            Some(shares(tokens, candidate))
        } else {
            None
        },
{
    lemma_tokens_score(tokens, candidate);
}

/// The order of the tokens does not change the score.
pub proof fn token_order_is_irrelevant(
    a: Seq<Seq<char>>,
    b: Seq<Seq<char>>,
    candidate: Seq<char>,
)
    requires
        a.to_multiset() == b.to_multiset(),
    ensures
        lowered_score(a, candidate) == lowered_score(b, candidate),
{
    lemma_shares_permuted(a, b, candidate);
    scores_are_sums(a, candidate);
    scores_are_sums(b, candidate);
    lemma_tokens_kept(a, b, candidate);
    lemma_tokens_kept(b, a, candidate);
}

proof fn lemma_tokens_kept(a: Seq<Seq<char>>, b: Seq<Seq<char>>, candidate: Seq<char>)
    requires
        a.to_multiset() == b.to_multiset(),
    ensures
        any_token(a) ==> any_token(b),
        all_fit(a, candidate) ==> all_fit(b, candidate),
{
    if any_token(a) {
        let i = choose|i: int| 0 <= i < a.len() && (#[trigger] a[i]).len() > 0;
        assert(a.contains(a[i]));
        to_multiset_contains(a, a[i]);
        to_multiset_contains(b, a[i]);
        let j = choose|j: int| 0 <= j < b.len() && b[j] == a[i];
        assert(b[j].len() > 0);
    }
    if all_fit(a, candidate) {
        assert forall|j: int| 0 <= j < b.len() && (#[trigger] b[j]).len() > 0 implies token_score(
            b[j],
            candidate,
        ) is Some by {
            assert(b.contains(b[j]));
            to_multiset_contains(a, b[j]);
            to_multiset_contains(b, b[j]);
            let i = choose|i: int| 0 <= i < a.len() && a[i] == b[j];
            assert(token_score(a[i], candidate) is Some);
        }
    }
}

/// The order of the words of a search text, the case of its letters and of those
/// of the name do not change the score.
pub proof fn word_order_and_case_are_irrelevant(
    a: Seq<char>,
    b: Seq<char>,
    candidate: Seq<char>,
    other: Seq<char>,
)
    requires
        lowered_words(a).to_multiset() == lowered_words(b).to_multiset(),
        lowercase(candidate) == lowercase(other),
    ensures
        fuzzy_score(a, candidate) == fuzzy_score(b, other),
{
    token_order_is_irrelevant(lowered_words(a), lowered_words(b), lowercase(candidate));
}

/// How much white space stands between words, and in which form, does not change
/// the score.
pub proof fn extra_blanks_are_irrelevant(
    head: Seq<char>,
    a: Seq<char>,
    b: Seq<char>,
    tail: Seq<char>,
    candidate: Seq<char>,
)
    requires
        a.len() > 0,
        b.len() > 0,
        forall|k: int| 0 <= k < a.len() ==> is_space(#[trigger] a[k]),
        forall|k: int| 0 <= k < b.len() ==> is_space(#[trigger] b[k]),
    ensures
        fuzzy_score(head + a + tail, candidate) == fuzzy_score(head + b + tail, candidate),
        fuzzy_score(a + tail, candidate) == fuzzy_score(tail, candidate),
        fuzzy_score(head + a, candidate) == fuzzy_score(head, candidate),
{
    let none = Seq::<char>::empty();
    blanks_only_part_words(head, a, tail);
    blanks_only_part_words(head, b, tail);
    blanks_only_part_words(none, a, tail);
    blanks_only_part_words(head, a, none);
    assert(none + a + tail =~= a + tail);
    assert(head + a + none =~= head + a);
    assert(words(none) + words(tail) =~= words(tail));
    assert(words(head) + words(none) =~= words(head));
}

} // verus!
