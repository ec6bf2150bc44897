//! Characters, words and strings: whitespace splitting, joining, substring
//! search and lowercasing.

use vstd::prelude::*;

verus! {

/// The code points that carry the Unicode `White_Space` property.
pub open spec fn is_space(c: char) -> bool {
    let n = c as u32;
    ||| 0x09 <= n <= 0x0D
    ||| n == 0x20
    ||| n == 0x85
    ||| n == 0xA0
    ||| n == 0x1680
    ||| 0x2000 <= n <= 0x200A
    ||| n == 0x2028
    ||| n == 0x2029
    ||| n == 0x202F
    ||| n == 0x205F
    ||| n == 0x3000
}

/// Whether `c` separates words.
pub fn is_whitespace(c: char) -> (b: bool)
    ensures
        b == is_space(c),
{
    let n: u32 = c as u32;
    (0x09 <= n && n <= 0x0D) || n == 0x20 || n == 0x85 || n == 0xA0 || n == 0x1680 || (0x2000 <= n
        && n <= 0x200A) || n == 0x2028 || n == 0x2029 || n == 0x202F || n == 0x205F || n == 0x3000
}


/// `String::push` appends one character to the end of the string.
pub assume_specification[ String::push ](s: &mut String, c: char)
    ensures
        final(s)@ == old(s)@.push(c),
;

/// The lowercase form of a string, as `str::to_lowercase` gives it.
pub uninterp spec fn lowercase(s: Seq<char>) -> Seq<char>;

/// Length of the longest prefix of `s` that holds no whitespace.
pub open spec fn word_len(s: Seq<char>) -> nat
    decreases s.len(),
{
    if s.len() == 0 || is_space(s[0]) {
        0
    } else {
        1 + word_len(s.drop_first())
    }
}

/// The words of `s`: its maximal runs of characters that are not whitespace,
/// from left to right.
pub open spec fn words(s: Seq<char>) -> Seq<Seq<char>>
    decreases s.len(),
{
    if s.len() == 0 {
        Seq::empty()
    } else if is_space(s[0]) {
        words(s.drop_first())
    } else {
        let n = word_len(s) as int;
        if 0 < n <= s.len() {
            seq![s.take(n)] + words(s.skip(n))
        } else {
            Seq::empty()
        }
    }
}

/// A word: at least one character, none of them whitespace.
pub open spec fn is_word(w: Seq<char>) -> bool {
    w.len() > 0 && forall|i: int| 0 <= i < w.len() ==> !is_space(#[trigger] w[i])
}

/// `word_len` stays within the sequence and is positive on a sequence that
/// starts with a character other than whitespace.
pub proof fn lemma_word_len_bounds(s: Seq<char>)
    ensures
        word_len(s) <= s.len(),
        s.len() > 0 && !is_space(s[0]) ==> word_len(s) > 0,
        forall|i: int| 0 <= i < word_len(s) ==> !is_space(#[trigger] s[i]),
        word_len(s) < s.len() ==> is_space(s[word_len(s) as int]),
    decreases s.len(),
{
    if s.len() == 0 || is_space(s[0]) {
    } else {
        let t = s.drop_first();
        lemma_word_len_bounds(t);
        assert forall|i: int| 0 <= i < word_len(s) implies !is_space(#[trigger] s[i]) by {
            if i > 0 {
                assert(s[i] == t[i - 1]);
            }
        }
        if word_len(s) < s.len() {
            assert(s[word_len(s) as int] == t[word_len(t) as int]);
        }
    }
}

/// A run without whitespace, followed by nothing or by whitespace, is the
/// whole of the first word.
pub proof fn lemma_word_len_prefix(w: Seq<char>, rest: Seq<char>)
    requires
        forall|i: int| 0 <= i < w.len() ==> !is_space(#[trigger] w[i]),
        rest.len() == 0 || is_space(rest[0]),
    ensures
        word_len(w + rest) == w.len(),
    decreases w.len(),
{
    let s = w + rest;
    if w.len() == 0 {
        assert(s =~= rest);
    } else {
        assert(s[0] == w[0]);
        assert(s.drop_first() =~= w.drop_first() + rest);
        assert forall|i: int| 0 <= i < w.drop_first().len() implies !is_space(
            #[trigger] w.drop_first()[i],
        ) by {
            assert(w.drop_first()[i] == w[i + 1]);
        }
        lemma_word_len_prefix(w.drop_first(), rest);
    }
}

/// A word followed by nothing or by whitespace is the first word of the
/// whole, and the other words are those of what follows it.
pub proof fn lemma_words_prefix(w: Seq<char>, rest: Seq<char>)
    requires
        is_word(w),
        rest.len() == 0 || is_space(rest[0]),
    ensures
        words(w + rest) == seq![w] + words(rest),
{
    let s = w + rest;
    lemma_word_len_prefix(w, rest);
    assert(s[0] == w[0]);
    assert(s.take(w.len() as int) =~= w);
    assert(s.skip(w.len() as int) =~= rest);
}

/// Splits `text` at whitespace into its words.
pub fn split_whitespace(text: &str) -> (tokens: Vec<String>)
    ensures
        tokens.deep_view() == words(text@),
{
    let mut tokens: Vec<String> = Vec::new();
    let mut current = String::new();
    let mut pending: bool = false;
    let ghost s = text@;
    proof {
        assert(current@ + s.skip(0) =~= s);
        assert(tokens.deep_view() + words(s) =~= words(s));
    }
    for c in it: text.chars()
        invariant
            it.seq() == s,
            pending == (current@.len() > 0),
            forall|i: int| 0 <= i < current@.len() ==> !is_space(#[trigger] current@[i]),
            words(s) == tokens.deep_view() + words(current@ + s.skip(it.index() as int)),
    {
        let ghost rest = s.skip(it.index() as int);
        let ghost tail = s.skip(it.index() + 1);
        assert(rest[0] == c);
        assert(rest.drop_first() =~= tail);
        if is_whitespace(c) {
            if pending {
                proof {
                    lemma_words_prefix(current@, rest);
                    assert(tokens.deep_view().push(current@) =~= tokens.deep_view() + seq![current@]);
                }
                let ghost before = tokens.deep_view();
                tokens.push(current);
                assert(tokens.deep_view() =~= before.push(current@));
                current = String::new();
                pending = false;
                assert(current@ + tail =~= tail);
            } else {
                assert(current@ + rest =~= rest);
                assert(current@ + tail =~= tail);
            }
        } else {
            let ghost before = current@;
            current.push(c);
            pending = true;
            assert(current@ + tail =~= before + rest);
        }
    }
    if pending {
        proof {
            assert(s.skip(s.len() as int) =~= Seq::<char>::empty());
            lemma_words_prefix(current@, Seq::<char>::empty());
        }
        let ghost before = tokens.deep_view();
        tokens.push(current);
        assert(tokens.deep_view() =~= before.push(current@));
        assert(before.push(current@) =~= before + seq![current@]);
    } else {
        assert(current@ + s.skip(s.len() as int) =~= Seq::<char>::empty());
    }
    tokens
}


/// `str::to_lowercase` returns the lowercase equivalent of the string, a
/// function of its characters alone; `lowercase` names that result.
pub assume_specification[ str::to_lowercase ](s: &str) -> (folded: String)
    ensures
        folded@ == lowercase(s@),
;

/// The words in `ws`, with `sep` between each two neighbours.
pub open spec fn join(ws: Seq<Seq<char>>, sep: Seq<char>) -> Seq<char>
    decreases ws.len(),
{
    if ws.len() == 0 {
        Seq::empty()
    } else if ws.len() == 1 {
        ws[0]
    } else {
        ws[0] + sep + join(ws.drop_first(), sep)
    }
}

/// Joining one more word at the end appends the separator and the word.
pub proof fn lemma_join_push(ws: Seq<Seq<char>>, w: Seq<char>, sep: Seq<char>)
    ensures
        join(ws.push(w), sep) == if ws.len() == 0 {
            w
        } else {
            join(ws, sep) + sep + w
        },
    decreases ws.len(),
{
    let all = ws.push(w);
    if ws.len() == 0 {
    } else if ws.len() == 1 {
        assert(all.drop_first() =~= seq![w]);
        assert(join(all.drop_first(), sep) == w);
    } else {
        assert(all.drop_first() =~= ws.drop_first().push(w));
        lemma_join_push(ws.drop_first(), w, sep);
        assert(ws[0] + sep + (join(ws.drop_first(), sep) + sep + w) =~= (ws[0] + sep + join(
            ws.drop_first(),
            sep,
        )) + sep + w);
    }
}

/// Words joined by single spaces split into the same words again.
pub proof fn lemma_words_of_join(ws: Seq<Seq<char>>)
    requires
        forall|i: int| 0 <= i < ws.len() ==> is_word(#[trigger] ws[i]),
    ensures
        words(join(ws, seq![' '])) == ws,
    decreases ws.len(),
{
    let sep = seq![' '];
    if ws.len() == 0 {
    } else if ws.len() == 1 {
        lemma_words_prefix(ws[0], Seq::empty());
        assert(ws[0] + Seq::<char>::empty() =~= ws[0]);
        assert(seq![ws[0]] + Seq::<Seq<char>>::empty() =~= ws);
    } else {
        let rest = ws.drop_first();
        let tail = sep + join(rest, sep);
        assert forall|i: int| 0 <= i < rest.len() implies is_word(#[trigger] rest[i]) by {
            assert(rest[i] == ws[i + 1]);
        }
        lemma_words_of_join(rest);
        assert(is_space(tail[0]));
        assert(tail.drop_first() =~= join(rest, sep));
        lemma_words_prefix(ws[0], tail);
        assert(ws[0] + sep + join(rest, sep) =~= ws[0] + tail);
        assert(seq![ws[0]] + rest =~= ws);
    }
}

/// Concatenates `items`, putting `sep` between each two neighbours.
pub fn join_with(items: &Vec<String>, sep: &str) -> (joined: String)
    ensures
        joined@ == join(items.deep_view(), sep@),
{
    let mut joined = String::new();
    let ghost ws = items.deep_view();
    let mut i: usize = 0;
    while i < items.len()
        invariant
            i <= items.len(),
            ws == items.deep_view(),
            joined@ == join(ws.take(i as int), sep@),
        decreases items.len() - i,
    {
        proof {
            lemma_join_push(ws.take(i as int), ws[i as int], sep@);
            assert(ws.take(i + 1) =~= ws.take(i as int).push(ws[i as int]));
        }
        if i > 0 {
            joined.append(sep);
        }
        joined.append(items[i].as_str());
        i = i + 1;
    }
    assert(ws.take(items.len() as int) =~= ws);
    joined
}

/// The characters of `text`, in order.
pub fn chars_of(text: &str) -> (chars: Vec<char>)
    ensures
        chars@ == text@,
{
    let mut chars: Vec<char> = Vec::new();
    for c in it: text.chars()
        invariant
            it.seq() == text@,
            chars@ == text@.take(it.index() as int),
    {
        assert(text@.take(it.index() + 1) =~= text@.take(it.index() as int).push(c));
        chars.push(c);
    }
    assert(text@.take(text@.len() as int) =~= text@);
    chars
}

/// Whether `needle` stands in `hay` from position `at` on.
pub open spec fn occurs_at(needle: Seq<char>, hay: Seq<char>, at: int) -> bool {
    &&& 0 <= at
    &&& at + needle.len() <= hay.len()
    &&& hay.subrange(at, at + needle.len()) == needle
}

/// Whether `needle` occurs in `hay` as a run of neighbouring characters.
pub open spec fn is_substring(needle: Seq<char>, hay: Seq<char>) -> bool {
    exists|at: int| occurs_at(needle, hay, at)
}

/// Whether `needle` stands in `hay` from position `at` on.
fn matches_at(hay: &Vec<char>, needle: &Vec<char>, at: usize) -> (found: bool)
    requires
        at + needle.len() <= hay.len(),
    ensures
        found == occurs_at(needle@, hay@, at as int),
{
    let mut j: usize = 0;
    while j < needle.len()
        invariant
            j <= needle.len(),
            at + needle.len() <= hay.len(),
            forall|k: int| 0 <= k < j ==> hay@[at + k] == needle@[k],
        decreases needle.len() - j,
    {
        if hay[at + j] != needle[j] {
            proof {
                let window = hay@.subrange(at as int, at + needle.len());
                assert(window[j as int] == hay@[at + j]);
            }
            return false;
        }
        j = j + 1;
    }
    assert(hay@.subrange(at as int, at + needle.len()) =~= needle@);
    true
}

/// Whether `needle` occurs in `hay` as a run of neighbouring characters.
pub fn contains(hay: &str, needle: &str) -> (found: bool)
    ensures
        found == is_substring(needle@, hay@),
{
    let hay_chars = chars_of(hay);
    let needle_chars = chars_of(needle);
    if needle_chars.len() > hay_chars.len() {
        return false;
    }
    let last: usize = hay_chars.len() - needle_chars.len();
    let mut at: usize = 0;
    loop
        invariant
            at <= last,
            last == hay_chars.len() - needle_chars.len(),
            needle_chars.len() <= hay_chars.len(),
            hay_chars@ == hay@,
            needle_chars@ == needle@,
            forall|k: int| 0 <= k < at ==> !occurs_at(needle@, hay@, k),
        decreases last - at,
    {
        if matches_at(&hay_chars, &needle_chars, at) {
            return true;
        }
        if at == last {
            return false;
        }
        at = at + 1;
    }
}

/// Whether `a` stands before `b` in the order of strings: at the first
/// place where they differ `a` has the smaller character, or `a` ends there
/// and `b` goes on.
pub open spec fn lex_less(a: Seq<char>, b: Seq<char>) -> bool
    decreases a.len(),
{
    if b.len() == 0 {
        false
    } else if a.len() == 0 {
        true
    } else if a[0] != b[0] {
        a[0] < b[0]
    } else {
        lex_less(a.drop_first(), b.drop_first())
    }
}

/// No string stands before itself.
pub proof fn lemma_lex_irreflexive(a: Seq<char>)
    ensures
        !lex_less(a, a),
    decreases a.len(),
{
    if a.len() > 0 {
        lemma_lex_irreflexive(a.drop_first());
    }
}

/// Of two different strings one stands before the other.
pub proof fn lemma_lex_total(a: Seq<char>, b: Seq<char>)
    ensures
        a == b || lex_less(a, b) || lex_less(b, a),
    decreases a.len(),
{
    if a.len() == 0 || b.len() == 0 {
        if a.len() == 0 && b.len() == 0 {
            assert(a =~= b);
        }
    } else if a[0] == b[0] {
        lemma_lex_total(a.drop_first(), b.drop_first());
        if a.drop_first() == b.drop_first() {
            assert(a =~= seq![a[0]] + a.drop_first());
            assert(b =~= seq![b[0]] + b.drop_first());
        }
    }
}

/// The order of strings is transitive.
pub proof fn lemma_lex_transitive(a: Seq<char>, b: Seq<char>, c: Seq<char>)
    requires
        lex_less(a, b),
        lex_less(b, c),
    ensures
        lex_less(a, c),
    decreases a.len(),
{
    if a.len() > 0 {
        if a[0] == b[0] && b[0] == c[0] {
            lemma_lex_transitive(a.drop_first(), b.drop_first(), c.drop_first());
        }
    }
}

/// Whether `a` and `b` hold the same characters.
pub fn same_text(a: &str, b: &str) -> (same: bool)
    ensures
        same == (a@ == b@),
{
    let left = chars_of(a);
    let right = chars_of(b);
    if left.len() != right.len() {
        return false;
    }
    let mut i: usize = 0;
    while i < left.len()
        invariant
            i <= left.len(),
            left.len() == right.len(),
            left@ == a@,
            right@ == b@,
            forall|k: int| 0 <= k < i ==> a@[k] == b@[k],
        decreases left.len() - i,
    {
        if left[i] != right[i] {
            return false;
        }
        i = i + 1;
    }
    assert(a@ =~= b@);
    true
}

/// Whether `a` stands before `b` in the order of strings.
pub fn precedes(a: &str, b: &str) -> (before: bool)
    ensures
        before == lex_less(a@, b@),
{
    let left = chars_of(a);
    let right = chars_of(b);
    let mut i: usize = 0;
    assert(a@.skip(0) =~= a@ && b@.skip(0) =~= b@);
    while i < left.len() && i < right.len()
        invariant
            i <= left.len(),
            i <= right.len(),
            left@ == a@,
            right@ == b@,
            lex_less(a@, b@) == lex_less(a@.skip(i as int), b@.skip(i as int)),
        decreases left.len() - i,
    {
        let ghost x = a@.skip(i as int);
        let ghost y = b@.skip(i as int);
        assert(x[0] == left@[i as int] && y[0] == right@[i as int]);
        if left[i] != right[i] {
            return left[i] < right[i];
        }
        assert(x.drop_first() =~= a@.skip(i + 1));
        assert(y.drop_first() =~= b@.skip(i + 1));
        i = i + 1;
    }
    i < right.len()
}

} // verus!
