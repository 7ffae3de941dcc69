//! Characters, words, decimal numbers and the order of strings.

use crate::order::{as_ints, order_of, ranks_of, sorted_by, stable_order, Ranked, SortKey};
use vstd::prelude::*;

verus! {

/// `String::push` appends one character.
pub assume_specification[ String::push ](s: &mut String, c: char)
    ensures
        final(s)@ == old(s)@.push(c),
;

/// The characters of a string.
pub fn chars_of(s: &str) -> (r: Vec<char>)
    ensures
        r@ == s@,
{
    let mut out: Vec<char> = Vec::new();
    for c in it: s.chars()
        invariant
            out@ == s@.take(it.index() as int),
            it.seq() == s@,
    {
        out.push(c);
        proof {
            assert(s@.take(it.index() + 1) =~= s@.take(it.index() as int).push(c));
        }
    }
    proof {
        assert(s@.take(s@.len() as int) =~= s@);
    }
    out
}

/// The string made of the characters `chars[from..to]`.
pub fn text_of(chars: &Vec<char>, from: usize, to: usize) -> (r: String)
    requires
        from <= to <= chars@.len(),
    ensures
        r@ == chars@.subrange(from as int, to as int),
{
    let mut out = String::new();
    let mut i: usize = from;
    while i < to
        invariant
            from <= i <= to <= chars@.len(),
            out@ == chars@.subrange(from as int, i as int),
        decreases to - i,
    {
        out.push(chars[i]);
        proof {
            assert(chars@.subrange(from as int, i + 1) =~= chars@.subrange(
                from as int,
                i as int,
            ).push(chars@[i as int]));
        }
        i = i + 1;
    }
    out
}

/// Whether two strings hold the same characters.
pub fn same_text(a: &str, b: &str) -> (r: bool)
    ensures
        r == (a@ == b@),
{
    a.to_owned() == b.to_owned()
}

/// The characters with the Unicode property `White_Space`.
pub open spec fn is_space(c: char) -> bool {
    let n = c as u32;
    ||| 0x9 <= n <= 0xd
    ||| n == 0x20
    ||| n == 0x85
    ||| n == 0xa0
    ||| n == 0x1680
    ||| 0x2000 <= n <= 0x200a
    ||| n == 0x2028
    ||| n == 0x2029
    ||| n == 0x202f
    ||| n == 0x205f
    ||| n == 0x3000
}

/// Whether `c` is white space.
pub fn is_space_char(c: char) -> (r: bool)
    ensures
        r == is_space(c),
{
    let n: u32 = c as u32;
    (0x9 <= n && n <= 0xd) || n == 0x20 || n == 0x85 || n == 0xa0 || n == 0x1680 || (0x2000 <= n
        && n <= 0x200a) || n == 0x2028 || n == 0x2029 || n == 0x202f || n == 0x205f || n == 0x3000
}

/// `s` without the white space at its two ends.
pub open spec fn trimmed(s: Seq<char>) -> Seq<char>
    decreases s.len(),
{
    if s.len() == 0 {
        s
    } else if is_space(s.first()) {
        trimmed(s.drop_first())
    } else if is_space(s.last()) {
        trimmed(s.drop_last())
    } else {
        s
    }
}

/// `s` without the white space at its two ends.
pub fn trim(s: &str) -> (r: String)
    ensures
        r@ == trimmed(s@),
{
    let chars = chars_of(s);
    let mut from: usize = 0;
    let mut to: usize = chars.len();
    proof {
        assert(chars@.subrange(0, to as int) =~= s@);
    }
    while from < to && is_space_char(chars[from])
        invariant
            from <= to == chars@.len(),
            trimmed(s@) == trimmed(chars@.subrange(from as int, to as int)),
        ensures
            from <= to == chars@.len(),
            trimmed(s@) == trimmed(chars@.subrange(from as int, to as int)),
            from < to ==> !is_space(chars@[from as int]),
        decreases to - from,
    {
        proof {
            assert(chars@.subrange(from as int, to as int).drop_first() =~= chars@.subrange(
                from + 1,
                to as int,
            ));
        }
        from = from + 1;
    }
    while from < to && is_space_char(chars[to - 1])
        invariant
            from <= to <= chars@.len(),
            trimmed(s@) == trimmed(chars@.subrange(from as int, to as int)),
            from < to ==> !is_space(chars@[from as int]),
        ensures
            from <= to <= chars@.len(),
            trimmed(s@) == chars@.subrange(from as int, to as int),
        decreases to - from,
    {
        proof {
            assert(chars@.subrange(from as int, to as int).drop_last() =~= chars@.subrange(
                from as int,
                to - 1,
            ));
        }
        to = to - 1;
    }
    text_of(&chars, from, to)
}

/// The index of the first white space at or behind `i`, or the length.
pub open spec fn word_end(s: Seq<char>, i: int) -> int
    decreases s.len() - i,
{
    if i < 0 || i >= s.len() {
        s.len() as int
    } else if is_space(s[i]) {
        i
    } else {
        word_end(s, i + 1)
    }
}

proof fn lemma_word_end(s: Seq<char>, i: int)
    requires
        0 <= i <= s.len(),
    ensures
        i <= word_end(s, i) <= s.len(),
        i < s.len() && !is_space(s[i]) ==> i < word_end(s, i),
    decreases s.len() - i,
{
    if i < s.len() && !is_space(s[i]) {
        lemma_word_end(s, i + 1);
    }
}

/// The maximal runs of characters that are not white space, from `i` on.
pub open spec fn words_from(s: Seq<char>, i: int) -> Seq<Seq<char>>
    decreases s.len() - i,
{
    if i < 0 || i >= s.len() {
        Seq::empty()
    } else if is_space(s[i]) {
        words_from(s, i + 1)
    } else if i < word_end(s, i) <= s.len() {
        seq![s.subrange(i, word_end(s, i))] + words_from(s, word_end(s, i))
    } else {
        Seq::empty()
    }
}

/// The words of `s`: its maximal runs of characters that are not white space.
pub open spec fn words(s: Seq<char>) -> Seq<Seq<char>> {
    words_from(s, 0)
}

proof fn lemma_words_behind(head: Seq<char>, tail: Seq<char>, i: int)
    requires
        0 <= i <= tail.len(),
    ensures
        word_end(head + tail, head.len() + i) == head.len() + word_end(tail, i),
        words_from(head + tail, head.len() + i) == words_from(tail, i),
    decreases tail.len() - i,
{
    let s = head + tail;
    if i < tail.len() {
        assert(s[head.len() + i] == tail[i]);
        lemma_words_behind(head, tail, i + 1);
        if !is_space(tail[i]) {
            lemma_word_end(tail, i);
            let end = word_end(tail, i);
            lemma_words_behind(head, tail, end);
            assert(s.subrange(head.len() + i, head.len() + end) =~= tail.subrange(i, end));
        }
    }
}

proof fn lemma_words_before(head: Seq<char>, tail: Seq<char>, i: int)
    requires
        0 <= i <= head.len(),
        tail.len() > 0,
        is_space(tail[0]),
    ensures
        word_end(head + tail, i) == word_end(head, i),
        words_from(head + tail, i) == words_from(head, i) + words(tail),
    decreases head.len() - i,
{
    let s = head + tail;
    if i == head.len() {
        assert(s[i] == tail[0]);
        lemma_words_behind(head, tail, 0);
        assert(words_from(head, i) + words(tail) =~= words(tail));
    } else {
        assert(s[i] == head[i]);
        lemma_words_before(head, tail, i + 1);
        if !is_space(head[i]) {
            lemma_word_end(head, i);
            let end = word_end(head, i);
            lemma_words_before(head, tail, end);
            assert(s.subrange(i, end) =~= head.subrange(i, end));
            assert((seq![head.subrange(i, end)] + words_from(head, end)) + words(tail) =~= seq![
                head.subrange(i, end),
            ] + (words_from(head, end) + words(tail)));
        }
    }
}

proof fn lemma_leading_blanks(blanks: Seq<char>, tail: Seq<char>, i: int)
    requires
        0 <= i <= blanks.len(),
        forall|k: int| 0 <= k < blanks.len() ==> is_space(#[trigger] blanks[k]),
    ensures
        words_from(blanks + tail, i) == words(tail),
    decreases blanks.len() - i,
{
    if i == blanks.len() {
        lemma_words_behind(blanks, tail, 0);
    } else {
        assert((blanks + tail)[i] == blanks[i]);
        lemma_leading_blanks(blanks, tail, i + 1);
    }
}

/// White space parts words, however much of it there is, and does nothing else.
pub proof fn blanks_only_part_words(head: Seq<char>, blanks: Seq<char>, tail: Seq<char>)
    requires
        blanks.len() > 0,
        forall|k: int| 0 <= k < blanks.len() ==> is_space(#[trigger] blanks[k]),
    ensures
        words(head + blanks + tail) == words(head) + words(tail),
{
    let rest = blanks + tail;
    assert(rest[0] == blanks[0]);
    assert(head + blanks + tail =~= head + rest);
    lemma_words_before(head, rest, 0);
    lemma_leading_blanks(blanks, tail, 0);
}

/// The views of a list of strings.
pub open spec fn views(v: Seq<String>) -> Seq<Seq<char>> {
    Seq::new(v.len(), |i: int| v[i]@)
}

/// Splits at white space.
pub fn split_words(s: &str) -> (r: Vec<String>)
    ensures
        views(r@) == words(s@),
{
    let chars = chars_of(s);
    let mut out: Vec<String> = Vec::new();
    let mut i: usize = 0;
    while i < chars.len()
        invariant
            chars@ == s@,
            i <= chars@.len(),
            words(s@) == views(out@) + words_from(s@, i as int),
        decreases chars@.len() - i,
    {
        if is_space_char(chars[i]) {
            i = i + 1;
        } else {
            proof {
                lemma_word_end(s@, i as int);
            }
            let start: usize = i;
            while i < chars.len() && !is_space_char(chars[i])
                invariant
                    chars@ == s@,
                    start <= i <= chars@.len(),
                    word_end(s@, start as int) == word_end(s@, i as int),
                ensures
                    start <= i <= chars@.len(),
                    i == word_end(s@, start as int),
                decreases chars@.len() - i,
            {
                i = i + 1;
            }
            let word = text_of(&chars, start, i);
            let ghost before = out@;
            out.push(word);
            proof {
                assert(views(out@) =~= views(before).push(word@));
                assert(words_from(s@, start as int) == seq![word@] + words_from(s@, i as int));
                assert(views(before) + (seq![word@] + words_from(s@, i as int)) =~= views(out@)
                    + words_from(s@, i as int));
            }
        }
    }
    proof {
        assert(views(out@) + Seq::<Seq<char>>::empty() =~= views(out@));
    }
    out
}

/// The decimal digit of `d`.
pub open spec fn digit(d: nat) -> char {
    (48 + d) as u8 as char
}

/// `n` in decimal, without leading zeros.
pub open spec fn decimal(n: nat) -> Seq<char>
    decreases n,
{
    if n < 10 {
        seq![digit(n)]
    } else {
        decimal(n / 10).push(digit(n % 10))
    }
}

/// `n` in decimal, with a minus sign where it is negative.
pub open spec fn decimal_int(n: int) -> Seq<char> {
    if n < 0 {
        seq!['-'] + decimal((-n) as nat)
    } else {
        decimal(n as nat)
    }
}

/// The decimal digit of `d`.
pub fn digit_char(d: u64) -> (r: char)
    requires
        d < 10,
    ensures
        r == digit(d as nat),
{
    (48 + d as u8) as char
}

/// Different numbers are written differently.
pub proof fn decimals_are_distinct(a: nat, b: nat)
    requires
        decimal(a) == decimal(b),
    ensures
        a == b,
    decreases a,
{
    lemma_decimal_nonempty(a);
    lemma_decimal_nonempty(b);
    assert(decimal(a).last() == digit(a % 10));
    assert(decimal(b).last() == digit(b % 10));
    assert(48 + a % 10 == 48 + b % 10);
    if a >= 10 && b >= 10 {
        assert(decimal(a).drop_last() =~= decimal(a / 10));
        assert(decimal(b).drop_last() =~= decimal(b / 10));
        decimals_are_distinct(a / 10, b / 10);
    } else if a >= 10 {
        lemma_decimal_nonempty(a / 10);
    } else if b >= 10 {
        lemma_decimal_nonempty(b / 10);
    }
}

proof fn lemma_decimal_nonempty(n: nat)
    ensures
        decimal(n).len() > 0,
{
}

/// Appends `n` in decimal.
pub fn push_decimal(out: &mut String, n: u64)
    ensures
        final(out)@ == old(out)@ + decimal(n as nat),
    decreases n,
{
    if n >= 10 {
        push_decimal(out, n / 10);
    }
    let ghost before = out@;
    out.push(digit_char(n % 10));
    proof {
        assert(before.push(digit((n % 10) as nat)) =~= before + seq![digit((n % 10) as nat)]);
        if n >= 10 {
            assert(old(out)@ + decimal(n as nat) =~= (old(out)@ + decimal((n / 10) as nat)).push(
                digit((n % 10) as nat),
            ));
        }
    }
}

/// `n` in decimal.
pub fn decimal_text(n: u64) -> (r: String)
    ensures
        r@ == decimal(n as nat),
{
    let mut out = String::new();
    push_decimal(&mut out, n);
    proof {
        assert(Seq::<char>::empty() + decimal(n as nat) =~= decimal(n as nat));
    }
    out
}

/// `n` in decimal, with a minus sign where it is negative.
pub fn signed_decimal_text(n: i64) -> (r: String)
    ensures
        r@ == decimal_int(n as int),
{
    let mut out = String::new();
    if n < 0 {
        out.push('-');
        let magnitude: u64 = (-(n + 1)) as u64 + 1;
        push_decimal(&mut out, magnitude);
        proof {
            assert(out@ =~= decimal_int(n as int));
        }
    } else {
        push_decimal(&mut out, n as u64);
        proof {
            assert(out@ =~= decimal_int(n as int));
        }
    }
    out
}

/// Lexicographic order of two texts by code point.
pub open spec fn text_le(a: Seq<char>, b: Seq<char>) -> bool
    decreases a.len(),
{
    if a.len() == 0 {
        true
    } else if b.len() == 0 {
        false
    } else if a[0] != b[0] {
        (a[0] as int) < (b[0] as int)
    } else {
        text_le(a.drop_first(), b.drop_first())
    }
}

pub proof fn text_le_total(a: Seq<char>, b: Seq<char>)
    ensures
        text_le(a, b) || text_le(b, a),
    decreases a.len(),
{
    if a.len() > 0 && b.len() > 0 {
        if a[0] == b[0] {
            text_le_total(a.drop_first(), b.drop_first());
        } else {
            assert(a[0] as int != b[0] as int);
        }
    }
}

pub proof fn text_le_transitive(a: Seq<char>, b: Seq<char>, c: Seq<char>)
    requires
        text_le(a, b),
        text_le(b, c),
    ensures
        text_le(a, c),
    decreases a.len(),
{
    if a.len() > 0 && b.len() > 0 && c.len() > 0 && a[0] == b[0] && b[0] == c[0] {
        text_le_transitive(a.drop_first(), b.drop_first(), c.drop_first());
    }
}

pub proof fn text_le_antisymmetric(a: Seq<char>, b: Seq<char>)
    requires
        text_le(a, b),
        text_le(b, a),
    ensures
        a == b,
    decreases a.len(),
{
    if a.len() > 0 && b.len() > 0 && a[0] == b[0] {
        text_le_antisymmetric(a.drop_first(), b.drop_first());
        assert(a =~= seq![a[0]] + a.drop_first());
        assert(b =~= seq![b[0]] + b.drop_first());
    } else {
        assert(a =~= b);
    }
}

fn char_before(p: char, q: char) -> (r: bool)
    ensures
        r == ((p as int) < (q as int)),
{
    (p as u32) < (q as u32)
}

/// Whether `a` does not stand behind `b` in the order of strings.
pub fn text_at_most(a: &str, b: &str) -> (r: bool)
    ensures
        r == text_le(a@, b@),
{
    let x = chars_of(a);
    let y = chars_of(b);
    let mut i: usize = 0;
    proof {
        assert(x@.subrange(0, x@.len() as int) =~= a@);
        assert(y@.subrange(0, y@.len() as int) =~= b@);
    }
    while i < x.len() && i < y.len() && x[i] == y[i]
        invariant
            i <= x@.len(),
            i <= y@.len(),
            text_le(a@, b@) == text_le(
                x@.subrange(i as int, x@.len() as int),
                y@.subrange(i as int, y@.len() as int),
            ),
        ensures
            i <= x@.len(),
            i <= y@.len(),
            i < x@.len() && i < y@.len() ==> x@[i as int] != y@[i as int],
            text_le(a@, b@) == text_le(
                x@.subrange(i as int, x@.len() as int),
                y@.subrange(i as int, y@.len() as int),
            ),
        decreases x@.len() - i,
    {
        proof {
            assert(x@.subrange(i as int, x@.len() as int).drop_first() =~= x@.subrange(
                i + 1,
                x@.len() as int,
            ));
            assert(y@.subrange(i as int, y@.len() as int).drop_first() =~= y@.subrange(
                i + 1,
                y@.len() as int,
            ));
        }
        i = i + 1;
    }
    if i >= x.len() {
        true
    } else if i >= y.len() {
        false
    } else {
        char_before(x[i], y[i])
    }
}

impl Ranked for Seq<char> {
    open spec fn le(self, other: Self) -> bool {
        text_le(self, other)
    }

    proof fn le_total(a: Self, b: Self) {
        text_le_total(a, b);
    }

    proof fn le_transitive(a: Self, b: Self, c: Self) {
        text_le_transitive(a, b, c);
    }
}

impl SortKey for String {
    type Rank = Seq<char>;

    open spec fn rank(&self) -> Seq<char> {
        self@
    }

    fn is_le(&self, other: &Self) -> (r: bool) {
        text_at_most(self.as_str(), other.as_str())
    }
}

/// Texts in ascending order.
pub open spec fn sorted_texts(texts: Seq<Seq<char>>) -> Seq<Seq<char>> {
    sorted_by(texts, texts)
}

/// Sorts strings in ascending order.
pub fn sort_texts(texts: &Vec<String>) -> (r: Vec<String>)
    ensures
        views(r@) == sorted_texts(views(texts@)),
{
    let ghost all = views(texts@);
    let order = stable_order(texts);
    proof {
        assert(ranks_of(texts@) =~= all);
        assert(as_ints(order@).len() == order@.len());
    }
    let mut out: Vec<String> = Vec::new();
    let mut i: usize = 0;
    while i < order.len()
        invariant
            i <= order@.len(),
            order@.len() == texts@.len(),
            all == views(texts@),
            as_ints(order@) == order_of(all),
            forall|k: int| 0 <= k < order@.len() ==> (#[trigger] order@[k]) < texts@.len(),
            views(out@) == sorted_texts(all).take(i as int),
        decreases order@.len() - i,
    {
        let ghost before = out@;
        out.push(texts[order[i]].clone());
        proof {
            assert(as_ints(order@)[i as int] == order@[i as int]);
            assert(views(out@) =~= views(before).push(texts@[order@[i as int] as int]@));
            assert(sorted_texts(all).take(i + 1) =~= sorted_texts(all).take(i as int).push(
                texts@[order@[i as int] as int]@,
            ));
        }
        i = i + 1;
    }
    proof {
        assert(sorted_texts(all).take(i as int) =~= sorted_texts(all));
    }
    out
}

/// A list without repetitions, each item where it first stands.
pub open spec fn unique(texts: Seq<Seq<char>>) -> Seq<Seq<char>>
    decreases texts.len(),
{
    if texts.len() == 0 {
        Seq::empty()
    } else {
        let rest = unique(texts.drop_last());
        if rest.contains(texts.last()) {
            rest
        } else {
            rest.push(texts.last())
        }
    }
}

/// Whether a list of strings holds a text.
pub fn has_text(values: &Vec<String>, value: &str) -> (r: bool)
    ensures
        r == views(values@).contains(value@),
{
    let mut i: usize = 0;
    while i < values.len()
        invariant
            i <= values@.len(),
            forall|j: int| 0 <= j < i ==> #[trigger] views(values@)[j] != value@,
        decreases values@.len() - i,
    {
        if same_text(values[i].as_str(), value) {
            assert(views(values@)[i as int] == value@);
            return true;
        }
        i = i + 1;
    }
    false
}

/// Appends a text that the list does not hold yet.
pub fn push_unique(values: &mut Vec<String>, value: &str)
    ensures
        views(final(values)@) == if views(old(values)@).contains(value@) {
            views(old(values)@)
        } else {
            views(old(values)@).push(value@)
        },
{
    if !has_text(values, value) {
        values.push(value.to_owned());
        proof {
            assert(views(values@) =~= views(old(values)@).push(value@));
        }
    }
}

} // verus!
