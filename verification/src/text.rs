//! Text as sequences of characters: capping and trimming.

use vstd::prelude::*;

verus! {

/// The first `n` characters of `s`, or all of it when it is no longer.
pub open spec fn capped(s: Seq<char>, n: nat) -> Seq<char> {
    if s.len() > n {
        s.take(n as int)
    } else {
        s
    }
}

/// Keeps at most the first `n` characters of `text`.
pub fn cap(text: &str, n: usize) -> (r: String)
    ensures
        r@ == capped(text@, n as nat),
{
    if text.unicode_len() > n {
        text.substring_char(0, n).to_owned()
    } else {
        text.to_owned()
    }
}

/// Whether `c` has the Unicode property `White_Space`.
pub open spec fn white(c: char) -> bool {
    ||| '\u{9}' <= c <= '\u{d}'
    ||| c == '\u{20}' || c == '\u{85}' || c == '\u{a0}' || c == '\u{1680}'
    ||| '\u{2000}' <= c <= '\u{200a}'
    ||| c == '\u{2028}' || c == '\u{2029}' || c == '\u{202f}' || c == '\u{205f}' || c == '\u{3000}'
}

/// Whether `c` counts as whitespace at the ends of a text.
pub fn is_white(c: char) -> (r: bool)
    ensures
        r == white(c),
{
    ('\u{9}' <= c && c <= '\u{d}') || c == '\u{20}' || c == '\u{85}' || c == '\u{a0}' || c
        == '\u{1680}' || ('\u{2000}' <= c && c <= '\u{200a}') || c == '\u{2028}' || c == '\u{2029}'
        || c == '\u{202f}' || c == '\u{205f}' || c == '\u{3000}'
}

/// How many whitespace characters `s` begins with.
pub open spec fn leading(s: Seq<char>) -> nat
    decreases s.len(),
{
    if s.len() > 0 && white(s[0]) {
        1 + leading(s.drop_first())
    } else {
        0
    }
}

/// How many whitespace characters `s` ends with.
pub open spec fn trailing(s: Seq<char>) -> nat
    decreases s.len(),
{
    if s.len() > 0 && white(s.last()) {
        1 + trailing(s.drop_last())
    } else {
        0
    }
}

/// `s` without the whitespace at its two ends.
pub open spec fn trimmed(s: Seq<char>) -> Seq<char> {
    if leading(s) == s.len() {
        Seq::empty()
    } else {
        s.subrange(leading(s) as int, s.len() - trailing(s))
    }
}

proof fn lemma_leading(s: Seq<char>, n: nat)
    requires
        n <= s.len(),
        forall|i: int| 0 <= i < n ==> white(#[trigger] s[i]),
        n < s.len() ==> !white(s[n as int]),
    ensures
        leading(s) == n,
    decreases s.len(),
{
    if n > 0 {
        let t = s.drop_first();
        assert forall|i: int| 0 <= i < n - 1 implies white(#[trigger] t[i]) by {
            assert(t[i] == s[i + 1]);
        }
        lemma_leading(t, (n - 1) as nat);
    }
}

proof fn lemma_trailing(s: Seq<char>, n: nat)
    requires
        n <= s.len(),
        forall|i: int| s.len() - n <= i < s.len() ==> white(#[trigger] s[i]),
        n < s.len() ==> !white(s[s.len() - n - 1]),
    ensures
        trailing(s) == n,
    decreases s.len(),
{
    if n > 0 {
        lemma_trailing(s.drop_last(), (n - 1) as nat);
    }
}

/// `text` without the whitespace at its two ends.
pub fn trim(text: &str) -> (r: &str)
    ensures
        r@ == trimmed(text@),
{
    let n: usize = text.unicode_len();
    let mut start: usize = 0;
    let mut end: usize = 0;
    let mut i: usize = 0;
    for c in it: text.chars()
        invariant
            it.seq() == text@,
            n == text@.len(),
            i == it.index(),
            start <= end <= i || (end == 0 && start == i),
            end == 0 ==> start == i,
            forall|j: int| 0 <= j < start ==> white(#[trigger] text@[j]),
            end > 0 ==> start < end <= i && !white(text@[start as int]) && !white(text@[end - 1]),
            end > 0 ==> forall|j: int| end <= j < i ==> white(#[trigger] text@[j]),
    {
        if is_white(c) {
            if end == 0 {
                start = i + 1;
            }
        } else {
            end = i + 1;
        }
        i = i + 1;
    }
    if end == 0 {
        proof {
            lemma_leading(text@, n as nat);
        }
        let r = text.substring_char(0, 0);
        assert(r@ =~= Seq::<char>::empty());
        r
    } else {
        proof {
            lemma_leading(text@, start as nat);
            lemma_trailing(text@, (n - end) as nat);
        }
        text.substring_char(start, end)
    }
}

/// The trimmed text, cut to `n` characters and marked with an ellipsis when it
/// has more.
pub open spec fn truncated(s: Seq<char>, n: nat) -> Seq<char> {
    if trimmed(s).len() <= n {
        trimmed(s)
    } else {
        trimmed(s).take(n as int).push('\u{2026}')
    }
}

/// Trims `s` and shortens it to `n` characters and an ellipsis when it has more
/// than `n`.
pub fn truncate(s: &str, n: usize) -> (r: String)
    ensures
        r@ == truncated(s@, n as nat),
        r@.len() <= n + 1,
{
    let t = trim(s);
    if t.unicode_len() <= n {
        t.to_owned()
    } else {
        let mut r = t.substring_char(0, n).to_owned();
        proof {
            reveal_strlit("\u{2026}");
        }
        r.append("\u{2026}");
        assert(r@ =~= truncated(s@, n as nat));
        r
    }
}

/// Capping keeps the start of a text: as many characters as the cap allows, each as it
/// was.
pub proof fn capping_keeps_the_start(s: Seq<char>, n: nat)
    ensures
        capped(s, n).len() <= n,
        capped(s, n).len() <= s.len(),
        capped(s, n).len() == n || capped(s, n).len() == s.len(),
        forall|i: int| 0 <= i < capped(s, n).len() ==> #[trigger] capped(s, n)[i] == s[i],
{
}

/// The whitespace characters are those of Unicode, by their numbers.
pub proof fn white_space_by_number(c: char)
    ensures
        white(c) <==> {
            let number = c as int;
            ||| 9 <= number <= 13
            ||| number == 32
            ||| number == 133
            ||| number == 160
            ||| number == 5760
            ||| 8192 <= number <= 8202
            ||| number == 8232
            ||| number == 8233
            ||| number == 8239
            ||| number == 8287
            ||| number == 12288
        },
{
}

proof fn lemma_leading_white(s: Seq<char>)
    ensures
        leading(s) <= s.len(),
        forall|i: int| 0 <= i < leading(s) ==> white(#[trigger] s[i]),
        leading(s) < s.len() ==> !white(s[leading(s) as int]),
    decreases s.len(),
{
    if s.len() > 0 && white(s[0]) {
        let t = s.drop_first();
        lemma_leading_white(t);
        assert forall|i: int| 0 <= i < leading(s) implies white(#[trigger] s[i]) by {
            if i > 0 {
                assert(t[i - 1] == s[i]);
            }
        }
        if leading(s) < s.len() {
            assert(t[leading(t) as int] == s[leading(s) as int]);
        }
    }
}

proof fn lemma_trailing_white(s: Seq<char>)
    ensures
        trailing(s) <= s.len(),
        forall|i: int| s.len() - trailing(s) <= i < s.len() ==> white(#[trigger] s[i]),
        trailing(s) < s.len() ==> !white(s[s.len() - trailing(s) - 1]),
    decreases s.len(),
{
    if s.len() > 0 && white(s.last()) {
        let t = s.drop_last();
        lemma_trailing_white(t);
        assert forall|i: int| s.len() - trailing(s) <= i < s.len() implies white(
            #[trigger] s[i],
        ) by {
            if i < t.len() {
                assert(t[i] == s[i]);
            }
        }
    }
}

/// Trimming takes whitespace off both ends and nothing else: what is left has none at
/// its ends, and nothing is left exactly of a text that is all whitespace.
pub proof fn trimming_takes_white_ends_only(s: Seq<char>)
    ensures
        exists|from: int, to: int|
            {
                &&& 0 <= from <= to <= s.len()
                &&& trimmed(s) == #[trigger] s.subrange(from, to)
                &&& forall|i: int| 0 <= i < from ==> white(#[trigger] s[i])
                &&& forall|i: int| to <= i < s.len() ==> white(#[trigger] s[i])
            },
        trimmed(s).len() > 0 ==> !white(trimmed(s)[0]) && !white(trimmed(s).last()),
        trimmed(s).len() > 0 <==> exists|i: int| 0 <= i < s.len() && !white(#[trigger] s[i]),
{
    lemma_leading_white(s);
    lemma_trailing_white(s);
    let from = leading(s) as int;
    let to = s.len() - trailing(s);
    if from == s.len() {
        assert(trimmed(s) =~= s.subrange(from, from));
    } else {
        assert(!white(s[from]));
        if to <= from {
            assert(white(s[from]));
        }
        let t = s.subrange(from, to);
        assert(trimmed(s) == t);
        assert(t[0] == s[from]);
        assert(t.last() == s[to - 1]);
    }
}

/// A truncated text is the trimmed text, or where that is longer its first characters
/// and an ellipsis.
pub proof fn truncating_marks_what_it_cuts(s: Seq<char>, n: nat)
    ensures
        trimmed(s).len() <= n ==> truncated(s, n) == trimmed(s),
        trimmed(s).len() > n ==> {
            &&& truncated(s, n).len() == n + 1
            &&& truncated(s, n)[n as int] as int == 0x2026
            &&& forall|i: int| 0 <= i < n ==> #[trigger] truncated(s, n)[i] == trimmed(s)[i]
        },
{
}

} // verus!
