use vstd::prelude::*;
use crate::text::{chars_of, is_whitespace, spec_is_whitespace, string_from_chars};

verus! {

broadcast use vstd::seq::group_seq_axioms;

/// The texts held by a vector of character vectors.
pub open spec fn texts(v: Seq<Vec<char>>) -> Seq<Seq<char>> {
    v.map_values(|x: Vec<char>| x@)
}

// ---------------------------------------------------------------------------
// Words.
// ---------------------------------------------------------------------------

/// The maximal runs of non-white-space characters of `s`, in order.
pub open spec fn words(s: Seq<char>) -> Seq<Seq<char>>
    decreases s.len(),
{
    if s.len() == 0 {
        Seq::empty()
    } else {
        let w = words(s.drop_last());
        let c = s.last();
        if spec_is_whitespace(c) {
            w
        } else if s.len() == 1 || spec_is_whitespace(s[s.len() - 2]) {
            w.push(seq![c])
        } else {
            w.update(w.len() - 1, w.last().push(c))
        }
    }
}

pub proof fn lemma_words_nonempty(s: Seq<char>)
    requires
        s.len() > 0,
        !spec_is_whitespace(s.last()),
    ensures
        words(s).len() > 0,
    decreases s.len(),
{
    if s.len() > 1 && !spec_is_whitespace(s[s.len() - 2]) {
        lemma_words_nonempty(s.drop_last());
    }
}

/// The words of `s`: its maximal runs of non-white-space characters.
pub fn split_whitespace(s: &[char]) -> (r: Vec<Vec<char>>)
    ensures
        texts(r@) == words(s@),
{
    let mut out: Vec<Vec<char>> = Vec::new();
    let mut i: usize = 0;
    let mut in_word = false;
    while i < s.len()
        invariant
            0 <= i <= s@.len(),
            texts(out@) == words(s@.take(i as int)),
            in_word == (i > 0 && !spec_is_whitespace(s@[i - 1])),
        decreases s@.len() - i,
    {
        let c = s[i];
        let ghost prefix = s@.take(i as int + 1);
        assert(prefix.drop_last() =~= s@.take(i as int));
        if is_whitespace(c) {
            in_word = false;
        } else if !in_word {
            let mut w: Vec<char> = Vec::new();
            w.push(c);
            assert(w@ =~= seq![c]);
            out.push(w);
            in_word = true;
            assert(texts(out@) =~= words(prefix));
        } else {
            proof {
                lemma_words_nonempty(s@.take(i as int));
            }
            let mut last = out.pop().unwrap();
            last.push(c);
            out.push(last);
            assert(texts(out@) =~= words(prefix));
        }
        i = i + 1;
    }
    assert(s@.take(s@.len() as int) =~= s@);
    out
}

/// Character-wise equality.
pub fn chars_eq(a: &[char], b: &[char]) -> (r: bool)
    ensures
        r == (a@ == b@),
{
    if a.len() != b.len() {
        return false;
    }
    let mut i: usize = 0;
    while i < a.len()
        invariant
            a@.len() == b@.len(),
            0 <= i <= a@.len(),
            forall|j: int| 0 <= j < i ==> a@[j] == b@[j],
        decreases a@.len() - i,
    {
        if a[i] != b[i] {
            return false;
        }
        i = i + 1;
    }
    assert(a@ =~= b@);
    true
}

/// `sub` occurs in `s` at position `i`.
pub open spec fn occurs_at(s: Seq<char>, sub: Seq<char>, i: int) -> bool {
    0 <= i && i + sub.len() <= s.len() && s.subrange(i, i + sub.len()) == sub
}

/// `sub` occurs somewhere in `s`.
pub open spec fn contains_text(s: Seq<char>, sub: Seq<char>) -> bool {
    exists|i: int| occurs_at(s, sub, i)
}

/// Whether `sub` occurs in `s`.
pub fn contains_chars(s: &[char], sub: &[char]) -> (r: bool)
    ensures
        r == contains_text(s@, sub@),
{
    if sub.len() > s.len() {
        return false;
    }
    if sub.len() == 0 {
        assert(s@.subrange(0, 0) =~= sub@);
        assert(occurs_at(s@, sub@, 0));
        return true;
    }
    let last = s.len() - sub.len();
    let mut i: usize = 0;
    while i <= last
        invariant
            last == s@.len() - sub@.len(),
            s@.len() <= usize::MAX,
            sub@.len() > 0,
            0 <= i <= last + 1,
            forall|j: int| 0 <= j < i ==> !occurs_at(s@, sub@, j),
        decreases last + 1 - i,
    {
        let mut k: usize = 0;
        let mut same = true;
        while k < sub.len()
            invariant
                0 <= i <= last,
                last == s@.len() - sub@.len(),
                i + sub@.len() <= s@.len(),
                s@.len() <= usize::MAX,
                0 <= k <= sub@.len(),
                same == forall|j: int| 0 <= j < k ==> s@[i + j] == sub@[j],
            decreases sub@.len() - k,
        {
            if s[i + k] != sub[k] {
                same = false;
            }
            k = k + 1;
        }
        if same {
            assert(s@.subrange(i as int, i + sub@.len()) =~= sub@);
            assert(occurs_at(s@, sub@, i as int));
            return true;
        }
        assert(!occurs_at(s@, sub@, i as int)) by {
            if occurs_at(s@, sub@, i as int) {
                let j = choose|j: int| 0 <= j < sub@.len() && s@[i + j] != sub@[j];
                assert(s@.subrange(i as int, i + sub@.len())[j] == sub@[j]);
            }
        }
        i = i + 1;
    }
    assert forall|j: int| !occurs_at(s@, sub@, j) by {
        if j > last {
            assert(!(j + sub@.len() <= s@.len()));
        }
    }
    false
}

// ---------------------------------------------------------------------------
// The font size token of a default-appearance string.
// ---------------------------------------------------------------------------

/// The operator that sets the font.
pub open spec fn tf_word() -> Seq<char> {
    seq!['T', 'f']
}

/// `i` is the first position, past the first, that holds `Tf`.
pub open spec fn is_first_tf(t: Seq<Seq<char>>, i: int) -> bool {
    &&& 1 <= i < t.len()
    &&& t[i] == tf_word()
    &&& forall|j: int| 1 <= j < i ==> t[j] != tf_word()
}

/// The word just before the first `Tf` that is not the first word: the font size operand.
pub open spec fn spec_size_token(da: Seq<char>) -> Option<Seq<char>> {
    let t = words(da);
    if exists|i: int| is_first_tf(t, i) {
        Some(t[(choose|i: int| is_first_tf(t, i)) - 1])
    } else {
        None
    }
}

/// The font size operand of a default-appearance string: the word before the first
/// `Tf` that is not its first word.
pub fn size_token(da: &[char]) -> (r: Option<Vec<char>>)
    ensures
        match r {
            Some(t) => spec_size_token(da@) == Some(t@),
            None => spec_size_token(da@) is None,
        },
{
    let t = split_whitespace(da);
    let mut tf: Vec<char> = Vec::new();
    tf.push('T');
    tf.push('f');
    assert(tf@ =~= tf_word());
    let mut i: usize = 1;
    while i < t.len()
        invariant
            1 <= i <= t@.len() || t@.len() == 0,
            texts(t@) == words(da@),
            tf@ == tf_word(),
            forall|j: int| 1 <= j < i && j < t@.len() ==> texts(t@)[j] != tf_word(),
        decreases t@.len() - i,
    {
        if chars_eq(t[i].as_slice(), tf.as_slice()) {
            proof {
                let w = words(da@);
                assert(is_first_tf(w, i as int));
                let c = choose|k: int| is_first_tf(w, k);
                if c < i {
                    assert(w[c] != tf_word());
                } else if c > i {
                    assert(w[i as int] != tf_word());
                }
            }
            let mut tok: Vec<char> = Vec::new();
            crate::text::push_all(&mut tok, t[i - 1].as_slice());
            return Some(tok);
        }
        i = i + 1;
    }
    proof {
        let w = words(da@);
        assert forall|k: int| !is_first_tf(w, k) by {
            if is_first_tf(w, k) {
                assert(texts(t@)[k] != tf_word());
            }
        }
    }
    None
}

/// The font size operand of a default-appearance string, e.g. `12` in `/Helv 12 Tf 0 g`.
pub fn font_size_token_from_da(da: &str) -> (r: Option<String>)
    ensures
        match r {
            Some(t) => spec_size_token(da@) == Some(t@),
            None => spec_size_token(da@) is None,
        },
{
    let c = chars_of(da);
    match size_token(c.as_slice()) {
        Some(t) => Some(string_from_chars(t.as_slice())),
        None => None,
    }
}


// ---------------------------------------------------------------------------
// Word wrap.
// ---------------------------------------------------------------------------

/// The pieces of `s` between newlines (as many as there are newlines, plus one).
pub open spec fn paragraphs(s: Seq<char>) -> Seq<Seq<char>>
    decreases s.len(),
{
    if s.len() == 0 {
        seq![Seq::empty()]
    } else {
        let p = paragraphs(s.drop_last());
        if s.last() == '\n' {
            p.push(Seq::empty())
        } else {
            p.update(p.len() - 1, p.last().push(s.last()))
        }
    }
}

proof fn lemma_paragraphs_nonempty(s: Seq<char>)
    ensures
        paragraphs(s).len() > 0,
    decreases s.len(),
{
    if s.len() > 0 {
        lemma_paragraphs_nonempty(s.drop_last());
    }
}

/// The pieces of `s` between newlines.
pub fn split_newlines(s: &[char]) -> (r: Vec<Vec<char>>)
    ensures
        texts(r@) == paragraphs(s@),
{
    let mut out: Vec<Vec<char>> = Vec::new();
    out.push(Vec::new());
    assert(texts(out@) =~= paragraphs(s@.take(0)));
    let mut i: usize = 0;
    while i < s.len()
        invariant
            0 <= i <= s@.len(),
            texts(out@) == paragraphs(s@.take(i as int)),
            out@.len() > 0,
        decreases s@.len() - i,
    {
        let c = s[i];
        let ghost prefix = s@.take(i as int + 1);
        assert(prefix.drop_last() =~= s@.take(i as int));
        if c == '\n' {
            out.push(Vec::new());
        } else {
            let mut last = out.pop().unwrap();
            last.push(c);
            out.push(last);
        }
        assert(texts(out@) =~= paragraphs(prefix));
        i = i + 1;
    }
    assert(s@.take(s@.len() as int) =~= s@);
    out
}

/// Greedy filling of words into lines of at most `m` characters: the finished lines and
/// the line under way. A word never splits; one longer than a line has a line of its own.
pub open spec fn wrap_state(w: Seq<Seq<char>>, m: nat) -> (Seq<Seq<char>>, Seq<char>)
    decreases w.len(),
{
    if w.len() == 0 {
        (Seq::empty(), Seq::empty())
    } else {
        let (lines, cur) = wrap_state(w.drop_last(), m);
        let word = w.last();
        if cur.len() == 0 {
            (lines, word)
        } else if cur.len() + 1 + word.len() <= m {
            (lines, cur + seq![' '] + word)
        } else {
            (lines.push(cur), word)
        }
    }
}

/// The lines of one paragraph.
pub open spec fn wrap_paragraph(p: Seq<char>, m: nat) -> Seq<Seq<char>> {
    let (lines, cur) = wrap_state(words(p), m);
    lines.push(cur)
}

/// The lines of several paragraphs, one after another.
pub open spec fn wrap_all(ps: Seq<Seq<char>>, m: nat) -> Seq<Seq<char>>
    decreases ps.len(),
{
    if ps.len() == 0 {
        Seq::empty()
    } else {
        wrap_all(ps.drop_last(), m) + wrap_paragraph(ps.last(), m)
    }
}

/// The wrapped lines of a value: each paragraph filled greedily, word by word.
pub open spec fn spec_wrap(value: Seq<char>, m: nat) -> Seq<Seq<char>> {
    wrap_all(paragraphs(value), m)
}

/// The lines of one paragraph, wrapped at `max_chars`.
fn wrap_paragraph_exec(p: &[char], max_chars: usize, out: &mut Vec<Vec<char>>)
    ensures
        texts(final(out)@) == texts(old(out)@) + wrap_paragraph(p@, max_chars as nat),
{
    let w = split_whitespace(p);
    let mut cur: Vec<char> = Vec::new();
    let ghost start = texts(out@);
    let mut i: usize = 0;
    assert(w@.take(0) =~= Seq::<Vec<char>>::empty());
    assert(texts(w@.take(0)) =~= Seq::<Seq<char>>::empty());
    while i < w.len()
        invariant
            0 <= i <= w@.len(),
            texts(w@) == words(p@),
            start == texts(old(out)@),
            ({
                let (lines, c) = wrap_state(texts(w@.take(i as int)), max_chars as nat);
                &&& texts(out@) == start + lines
                &&& cur@ == c
            }),
        decreases w@.len() - i,
    {
        let word = &w[i];
        let ghost ws = texts(w@.take(i as int + 1));
        assert(ws.drop_last() =~= texts(w@.take(i as int)));
        assert(ws.last() == word@);
        if cur.len() == 0 {
            cur = Vec::new();
            crate::text::push_all(&mut cur, word.as_slice());
        } else if cur.len() < max_chars && word.len() <= max_chars - 1 - cur.len() {
            cur.push(' ');
            crate::text::push_all(&mut cur, word.as_slice());
            assert(cur@ =~= wrap_state(ws, max_chars as nat).1);
        } else {
            let ghost prev = wrap_state(texts(w@.take(i as int)), max_chars as nat);
            let ghost old_out = texts(out@);
            assert(wrap_state(ws, max_chars as nat) == (prev.0.push(prev.1), word@));
            let mut next: Vec<char> = Vec::new();
            crate::text::push_all(&mut next, word.as_slice());
            std::mem::swap(&mut cur, &mut next);
            out.push(next);
            assert(texts(out@) =~= old_out.push(prev.1));
            assert(texts(out@) =~= start + wrap_state(ws, max_chars as nat).0);
        }
        i = i + 1;
    }
    assert(w@.take(w@.len() as int) =~= w@);
    let ghost fin = wrap_state(words(p@), max_chars as nat);
    let ghost before = texts(out@);
    assert(before == texts(old(out)@) + fin.0);
    out.push(cur);
    assert(texts(out@) =~= before.push(fin.1));
    assert(texts(out@) =~= texts(old(out)@) + wrap_paragraph(p@, max_chars as nat));
}

/// Wraps a value into lines of at most `max_chars` characters, at word boundaries,
/// starting a new line at every newline.
pub fn wrap_chars(value: &[char], max_chars: usize) -> (r: Vec<Vec<char>>)
    ensures
        texts(r@) == spec_wrap(value@, max_chars as nat),
{
    let ps = split_newlines(value);
    let mut out: Vec<Vec<char>> = Vec::new();
    let mut i: usize = 0;
    assert(texts(ps@.take(0)) =~= Seq::<Seq<char>>::empty());
    assert(texts(out@) =~= wrap_all(texts(ps@.take(0)), max_chars as nat));
    while i < ps.len()
        invariant
            0 <= i <= ps@.len(),
            texts(ps@) == paragraphs(value@),
            texts(out@) == wrap_all(texts(ps@.take(i as int)), max_chars as nat),
        decreases ps@.len() - i,
    {
        wrap_paragraph_exec(ps[i].as_slice(), max_chars, &mut out);
        let ghost pre = texts(ps@.take(i as int + 1));
        assert(pre.drop_last() =~= texts(ps@.take(i as int)));
        i = i + 1;
    }
    assert(ps@.take(ps@.len() as int) =~= ps@);
    out
}

/// Wraps a value into lines of at most `max_chars` characters, at word boundaries,
/// starting a new line at every newline.
pub fn wrap_text(value: &str, max_chars: usize) -> (r: Vec<String>)
    ensures
        r@.len() == spec_wrap(value@, max_chars as nat).len(),
        forall|i: int| 0 <= i < r@.len() ==> #[trigger] r@[i]@ == spec_wrap(value@, max_chars as nat)[i],
{
    let c = chars_of(value);
    let lines = wrap_chars(c.as_slice(), max_chars);
    let mut out: Vec<String> = Vec::new();
    let mut i: usize = 0;
    while i < lines.len()
        invariant
            0 <= i <= lines@.len(),
            texts(lines@) == spec_wrap(value@, max_chars as nat),
            out@.len() == i,
            forall|j: int| 0 <= j < i ==> #[trigger] out@[j]@ == spec_wrap(value@, max_chars as nat)[j],
        decreases lines@.len() - i,
    {
        out.push(string_from_chars(lines[i].as_slice()));
        i = i + 1;
    }
    out
}

} // verus!
