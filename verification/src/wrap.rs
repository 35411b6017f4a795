//! Comment wrapping: the shared "use the space as it exists" rule.
//!
//! Head/foot comment text wraps to the document's own width envelope so a
//! comment never makes the file wider than it already is; the caller supplies
//! the node's indent and the delimiter width (`"# "` = 2, `"// "` = 3). Inline
//! comments never wrap; the caller skips this.
use crate::lines::{lines_of, split_lines};
use crate::strs::{chars_of, is_white, slice_text, white_space};
use crate::text::{line_content, split_ending};
use crate::value::texts;
use vstd::prelude::*;
use vstd::string::*;

verus! {

/// The length of the longest of the first `n` lines, terminators aside.
pub open spec fn longest(lines: Seq<Seq<char>>, n: nat) -> nat
    decreases n,
{
    if n == 0 {
        0
    } else {
        let before = longest(lines, (n - 1) as nat);
        let here = line_content(lines[n - 1]).len();
        if here > before {
            here
        } else {
            before
        }
    }
}

/// The absolute wrap column: the longest line, but at least 80 and at most 100.
pub open spec fn width_of(source: Seq<char>) -> int {
    let n = longest(lines_of(source), lines_of(source).len());
    if n < 80 {
        80
    } else if n > 100 {
        100
    } else {
        n as int
    }
}

/// The absolute wrap column for `source`: `clamp(longest line, 80, 100)`. The
/// ceiling stops a wide file yielding 200-char comment lines; the floor keeps a
/// flat `.env` from wrapping prose to its 9-char keys.
pub fn wrap_width(source: &str) -> (r: usize)
    ensures
        r == width_of(source@),
{
    let lines = split_lines(source);
    let ghost ls = lines_of(source@);
    let mut most: usize = 0;
    let mut i: usize = 0;
    while i < lines.len()
        invariant
            i <= lines.len(),
            ls == texts(lines@),
            most == longest(ls, i as nat),
        decreases lines.len() - i,
    {
        assert(ls[i as int] == lines@[i as int]@);
        let (content, _) = split_ending(&lines[i]);
        let n = content.unicode_len();
        if n > most {
            most = n;
        }
        i = i + 1;
    }
    if most < 80 {
        80
    } else if most > 100 {
        100
    } else {
        most
    }
}

/// The first position at or after `i` that is not white space.
pub open spec fn word_start(s: Seq<char>, i: int) -> int
    decreases s.len() - i,
{
    if i < s.len() && white_space(s[i]) {
        word_start(s, i + 1)
    } else {
        i
    }
}

/// The first position at or after `i` that is white space.
pub open spec fn word_end(s: Seq<char>, i: int) -> int
    decreases s.len() - i,
{
    if i < s.len() && !white_space(s[i]) {
        word_end(s, i + 1)
    } else {
        i
    }
}

proof fn word_bounds(s: Seq<char>, i: int)
    requires
        0 <= i <= s.len(),
    ensures
        i <= word_start(s, i) <= s.len(),
        i <= word_end(s, i) <= s.len(),
        word_start(s, i) < s.len() ==> !white_space(s[word_start(s, i)]),
        i < s.len() && !white_space(s[i]) ==> i < word_end(s, i),
    decreases s.len() - i,
{
    if i < s.len() {
        word_bounds(s, i + 1);
    }
}

/// The words of `s` from position `i` on: the maximal runs without white space.
pub open spec fn words_from(s: Seq<char>, i: int) -> Seq<Seq<char>>
    decreases s.len() - i,
    when 0 <= i <= s.len()
    via words_decreases
{
    let a = word_start(s, i);
    if a >= s.len() {
        Seq::empty()
    } else {
        seq![s.subrange(a, word_end(s, a))] + words_from(s, word_end(s, a))
    }
}

#[via_fn]
proof fn words_decreases(s: Seq<char>, i: int) {
    word_bounds(s, i);
    word_bounds(s, word_start(s, i));
}

/// The words of `s`.
pub open spec fn words_of(s: Seq<char>) -> Seq<Seq<char>> {
    words_from(s, 0)
}

/// The columns a comment's text may take.
pub open spec fn budget_of(width: int, indent: int, delim: int) -> int {
    if width - indent - delim < 1 {
        1
    } else {
        width - indent - delim
    }
}

/// The words of a text.
fn split_words(s: &str) -> (r: Vec<String>)
    ensures
        texts(r@) == words_of(s@),
{
    let cs = chars_of(s);
    let mut out: Vec<String> = Vec::new();
    let mut i: usize = 0;
    assert(texts(out@) + words_from(s@, 0) =~= words_of(s@));
    loop
        invariant_except_break
            i <= cs.len(),
            texts(out@) + words_from(s@, i as int) == words_of(s@),
        invariant
            cs@ == s@,
        ensures
            texts(out@) == words_of(s@),
        decreases cs.len() - i,
    {
        let mut a: usize = i;
        while a < cs.len() && is_white(cs[a])
            invariant
                i <= a <= cs.len(),
                cs@ == s@,
                word_start(s@, i as int) == word_start(s@, a as int),
            decreases cs.len() - a,
        {
            a = a + 1;
        }
        if a >= cs.len() {
            assert(texts(out@) + words_from(s@, i as int) =~= texts(out@));
            break;
        }
        let mut b: usize = a;
        while b < cs.len() && !is_white(cs[b])
            invariant
                a <= b <= cs.len(),
                cs@ == s@,
                word_end(s@, a as int) == word_end(s@, b as int),
            decreases cs.len() - b,
        {
            b = b + 1;
        }
        proof {
            word_bounds(s@, a as int);
        }
        let ghost before = texts(out@);
        out.push(slice_text(&cs, a, b));
        assert(texts(out@) =~= before.push(s@.subrange(a as int, b as int)));
        assert(texts(out@) + words_from(s@, b as int) =~= before + words_from(s@, i as int));
        i = b;
    }
    out
}

/// Greedy fill of the first `n` words: the finished lines, and the one being
/// filled.
pub open spec fn filled(words: Seq<Seq<char>>, budget: int, n: nat) -> (Seq<Seq<char>>, Seq<char>)
    decreases n,
{
    if n == 0 {
        (Seq::empty(), Seq::empty())
    } else {
        let (lines, cur) = filled(words, budget, (n - 1) as nat);
        let w = words[n - 1];
        if cur.len() == 0 {
            (lines, w)
        } else if cur.len() + 1 + w.len() <= budget {
            (lines, cur.push(' ') + w)
        } else {
            (lines.push(cur), w)
        }
    }
}

/// The lines a comment's text wraps to.
pub open spec fn wrapped(text: Seq<char>, budget: int) -> Seq<Seq<char>> {
    let (lines, cur) = filled(words_of(text), budget, words_of(text).len());
    lines.push(cur)
}

/// Wrap `text` into lines whose rendered form (`<indent><delim><line>`) fits in
/// `width` columns. Greedy fill; a single word longer than the budget overflows
/// rather than hard-breaking. Returns the text of each line (no indent/delim);
/// always at least one line (empty for empty text).
pub fn wrap_comment(text: &str, width: usize, indent: usize, delim_cols: usize) -> (r: Vec<String>)
    ensures
        texts(r@) == wrapped(text@, budget_of(width as int, indent as int, delim_cols as int)),
{
    let mut budget: usize = 1;
    if indent < width && delim_cols < width - indent {
        budget = width - indent - delim_cols;
    }
    let words = split_words(text);
    let ghost ws = words_of(text@);
    let mut lines: Vec<String> = Vec::new();
    let mut cur = String::new();
    let mut i: usize = 0;
    assert(texts(lines@) =~= Seq::<Seq<char>>::empty());
    while i < words.len()
        invariant
            i <= words.len(),
            ws == texts(words@),
            (texts(lines@), cur@) == filled(ws, budget as int, i as nat),
        decreases words.len() - i,
    {
        let word = &words[i];
        assert(ws[i as int] == word@);
        let w = word.as_str().unicode_len();
        let n = cur.as_str().unicode_len();
        if n == 0 {
            cur = word.clone();
        } else if n < budget && w <= budget - n - 1 {
            cur.push(' ');
            cur.append(word);
        } else {
            let ghost before = texts(lines@);
            lines.push(cur.clone());
            assert(texts(lines@) =~= before.push(cur@));
            cur = word.clone();
        }
        i = i + 1;
    }
    let ghost before = texts(lines@);
    let ghost last = cur@;
    lines.push(cur);
    assert(texts(lines@) =~= before.push(last));
    lines
}

/// A text without white space, and not empty.
pub open spec fn is_word(w: Seq<char>) -> bool {
    w.len() > 0 && forall|i: int| 0 <= i < w.len() ==> !white_space(#[trigger] w[i])
}

/// The words of a text are words.
pub proof fn words_are_words(s: Seq<char>, i: int)
    requires
        0 <= i <= s.len(),
    ensures
        forall|k: int| 0 <= k < words_from(s, i).len() ==> is_word(#[trigger] words_from(s, i)[k]),
    decreases s.len() - i,
{
    let a = word_start(s, i);
    word_bounds(s, i);
    if a < s.len() {
        let b = word_end(s, a);
        word_bounds(s, a);
        word_run(s, a);
        words_are_words(s, b);
        let rest = words_from(s, b);
        assert forall|k: int| 0 <= k < words_from(s, i).len() implies is_word(
            #[trigger] words_from(s, i)[k],
        ) by {
            if k > 0 {
                assert(words_from(s, i)[k] == rest[k - 1]);
            }
        }
    }
}

proof fn word_run(s: Seq<char>, i: int)
    requires
        0 <= i <= s.len(),
    ensures
        forall|j: int| i <= j < word_end(s, i) ==> !white_space(#[trigger] s[j]),
    decreases s.len() - i,
{
    if i < s.len() && !white_space(s[i]) {
        word_run(s, i + 1);
    }
}

/// Every wrapped line fits the budget, unless it is a single word that is wider
/// than the budget by itself.
pub proof fn wrapped_lines_fit(text: Seq<char>, budget: int, k: int)
    requires
        budget >= 1,
        0 <= k < wrapped(text, budget).len(),
    ensures
        wrapped(text, budget)[k].len() <= budget || is_word(wrapped(text, budget)[k]),
{
    let ws = words_of(text);
    words_are_words(text, 0);
    fills_fit(ws, budget, ws.len());
}

proof fn fills_fit(ws: Seq<Seq<char>>, budget: int, n: nat)
    requires
        budget >= 1,
        n <= ws.len(),
        forall|k: int| 0 <= k < ws.len() ==> is_word(#[trigger] ws[k]),
    ensures
        filled(ws, budget, n).1.len() <= budget || is_word(filled(ws, budget, n).1),
        forall|k: int|
            0 <= k < filled(ws, budget, n).0.len() ==> (#[trigger] filled(ws, budget, n).0[k]).len()
                <= budget || is_word(filled(ws, budget, n).0[k]),
    decreases n,
{
    if n > 0 {
        fills_fit(ws, budget, (n - 1) as nat);
        assert(is_word(ws[n - 1]));
    }
}

/// Wrapping keeps every word, in order: a wrapped text's lines hold the text's
/// words, joined by single spaces.
pub proof fn wrapping_keeps_words(text: Seq<char>, budget: int)
    ensures
        lines_words(wrapped(text, budget), wrapped(text, budget).len()) == words_of(text),
{
    let ws = words_of(text);
    words_are_words(text, 0);
    let (lines, cur) = filled(ws, budget, ws.len());
    fills_keep(ws, budget, ws.len());
    let all = lines.push(cur);
    assert(ws.take(ws.len() as int) =~= ws);
    lines_words_prefix(all, lines, lines.len());
    assert(words_of(cur) == words_from(cur, 0));
}

/// The words of the first `n` lines.
pub open spec fn lines_words(lines: Seq<Seq<char>>, n: nat) -> Seq<Seq<char>>
    decreases n,
{
    if n == 0 {
        Seq::empty()
    } else {
        lines_words(lines, (n - 1) as nat) + words_of(lines[n - 1])
    }
}

proof fn lines_words_prefix(a: Seq<Seq<char>>, b: Seq<Seq<char>>, n: nat)
    requires
        n <= a.len(),
        n <= b.len(),
        forall|i: int| 0 <= i < n ==> a[i] == #[trigger] b[i],
    ensures
        lines_words(a, n) == lines_words(b, n),
    decreases n,
{
    if n > 0 {
        lines_words_prefix(a, b, (n - 1) as nat);
        assert(a[n - 1] == b[n - 1]);
    }
}

proof fn fills_keep(ws: Seq<Seq<char>>, budget: int, n: nat)
    requires
        n <= ws.len(),
        forall|k: int| 0 <= k < ws.len() ==> is_word(#[trigger] ws[k]),
    ensures
        lines_words(filled(ws, budget, n).0, filled(ws, budget, n).0.len()) + words_of(
            filled(ws, budget, n).1,
        ) == ws.take(n as int),
        filled(ws, budget, n).1.len() > 0 ==> !white_space(filled(ws, budget, n).1.last()),
    decreases n,
{
    if n == 0 {
        assert(words_of(Seq::<char>::empty()) =~= Seq::<Seq<char>>::empty());
        assert(ws.take(0) =~= Seq::<Seq<char>>::empty());
    } else {
        fills_keep(ws, budget, (n - 1) as nat);
        let (lines, cur) = filled(ws, budget, (n - 1) as nat);
        let w = ws[n - 1];
        assert(is_word(w));
        assert(ws.take(n as int) =~= ws.take(n - 1).push(w));
        one_word(w);
        if cur.len() == 0 {
            assert(words_of(cur) =~= Seq::<Seq<char>>::empty());
            assert(lines_words(lines, lines.len()) + words_of(cur) =~= lines_words(lines, lines.len()));
            assert(lines_words(lines, lines.len()) + seq![w] =~= ws.take(n as int));
        } else if cur.len() + 1 + w.len() <= budget {
            space_then_word(cur, w);
            assert((cur.push(' ') + w).last() == w.last());
            assert(lines_words(lines, lines.len()) + (words_of(cur) + seq![w]) =~= ws.take(n as int));
        } else {
            let all = lines.push(cur);
            lines_words_prefix(all, lines, lines.len());
            assert(lines_words(all, all.len()) + seq![w] =~= ws.take(n as int));
        }
    }
}

/// A word's words are itself.
proof fn one_word(w: Seq<char>)
    requires
        is_word(w),
    ensures
        words_of(w) == seq![w],
{
    word_whole(w, 0);
    assert(words_from(w, w.len() as int) =~= Seq::<Seq<char>>::empty());
    assert(w.subrange(0, w.len() as int) =~= w);
    assert(words_of(w) =~= seq![w]);
}

proof fn word_whole(w: Seq<char>, i: int)
    requires
        is_word(w),
        0 <= i <= w.len(),
    ensures
        word_end(w, i) == w.len(),
    decreases w.len() - i,
{
    if i < w.len() {
        word_whole(w, i + 1);
    }
}

/// A space and one more word.
proof fn space_then_word(cur: Seq<char>, w: Seq<char>)
    requires
        is_word(w),
        cur.len() > 0,
        !white_space(cur.last()),
    ensures
        words_of(cur.push(' ') + w) == words_of(cur) + seq![w],
{
    words_then(cur, w, 0);
}

proof fn words_then(cur: Seq<char>, w: Seq<char>, i: int)
    requires
        is_word(w),
        0 <= i <= cur.len(),
        cur.len() > 0,
        !white_space(cur.last()),
    ensures
        words_from(cur.push(' ') + w, i) == words_from(cur, i) + seq![w],
    decreases cur.len() - i,
{
    let s = cur.push(' ') + w;
    let n = cur.len() as int;
    if i == n {
        assert(words_from(cur, i) =~= Seq::<Seq<char>>::empty());
        assert(word_start(s, n) == word_start(s, n + 1));
        assert(s[n + 1] == w[0]);
        tail_word(cur, w, n + 1);
        assert(s.subrange(n + 1, s.len() as int) =~= w);
        assert(words_from(s, s.len() as int) =~= Seq::<Seq<char>>::empty());
        assert(words_from(s, i) =~= words_from(cur, i) + seq![w]);
    } else {
        let a = word_start(cur, i);
        start_same(cur, w, i);
        word_bounds(cur, i);
        let b = word_end(cur, a);
        end_same(cur, w, a);
        word_bounds(cur, a);
        words_then(cur, w, b);
        assert(s.subrange(a, b) =~= cur.subrange(a, b));
        assert(words_from(s, i) =~= words_from(cur, i) + seq![w]);
    }
}

proof fn tail_word(cur: Seq<char>, w: Seq<char>, i: int)
    requires
        is_word(w),
        cur.len() < i <= cur.len() + 1 + w.len(),
    ensures
        word_end(cur.push(' ') + w, i) == cur.len() + 1 + w.len(),
    decreases cur.len() + 1 + w.len() - i,
{
    let s = cur.push(' ') + w;
    if i < s.len() {
        assert(s[i] == w[i - cur.len() - 1]);
        tail_word(cur, w, i + 1);
    }
}

proof fn start_same(cur: Seq<char>, w: Seq<char>, i: int)
    requires
        0 <= i < cur.len(),
        !white_space(cur.last()),
    ensures
        word_start(cur.push(' ') + w, i) == word_start(cur, i),
        word_start(cur, i) < cur.len(),
    decreases cur.len() - i,
{
    let s = cur.push(' ') + w;
    assert(s[i] == cur[i]);
    if white_space(cur[i]) {
        assert(i + 1 < cur.len());
        start_same(cur, w, i + 1);
    }
}

proof fn end_same(cur: Seq<char>, w: Seq<char>, i: int)
    requires
        0 <= i <= cur.len(),
    ensures
        word_end(cur.push(' ') + w, i) == word_end(cur, i),
    decreases cur.len() - i,
{
    let s = cur.push(' ') + w;
    if i < cur.len() {
        assert(s[i] == cur[i]);
        if !white_space(cur[i]) {
            end_same(cur, w, i + 1);
        }
    } else {
        assert(s[i] == ' ');
    }
}

} // verus!
