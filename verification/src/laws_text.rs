use vstd::prelude::*;
use vstd::string::StringSliceAdditionalSpecFns;
use crate::object::{Entries, ObjectId};
use crate::dict::dict_get;
use crate::document::DocView;
use crate::fields::{
    Inherited, join_reversed, name_parts, node_dict, parent_of, spec_field_name, spec_walk, walk, walk_ends,
    lemma_walk_fuel,
};
use crate::fill::spec_lookup;
use crate::layout::{is_first_tf, spec_size_token, tf_word, words, lemma_words_nonempty};
use crate::text::{spec_is_whitespace, spec_string_value};

verus! {

broadcast use vstd::seq::group_seq_axioms;

// ---------------------------------------------------------------------------
// Field names.
// ---------------------------------------------------------------------------

/// The partial name `/T` of a field dictionary, as text.
pub open spec fn partial_name(e: Entries) -> Option<Seq<char>> {
    match dict_get(e, "T".spec_bytes()) {
        Some(t) => spec_string_value(t),
        None => None,
    }
}

proof fn lemma_name_parts_front(e: Entries, r: Seq<Entries>)
    ensures
        name_parts(seq![e] + r) == match partial_name(e) {
            Some(t) => seq![t] + name_parts(r),
            None => name_parts(r),
        },
    decreases r.len(),
{
    let own = partial_name(e);
    if r.len() == 0 {
        assert(seq![e] + r =~= seq![e]);
        assert(seq![e].drop_last() =~= Seq::<Entries>::empty());
        assert(seq![e].last() == e);
        let z = name_parts(Seq::<Entries>::empty());
        assert(z =~= Seq::<Seq<char>>::empty());
        assert(name_parts(seq![e]) == match dict_get(e, "T".spec_bytes()) {
            Some(t) => match spec_string_value(t) {
                Some(x) => z.push(x),
                None => z,
            },
            None => z,
        });
        if let Some(t) = own {
            assert(seq![t] + name_parts(r) =~= z.push(t));
        }
    } else {
        let r2 = r.drop_last();
        lemma_name_parts_front(e, r2);
        assert((seq![e] + r).drop_last() =~= seq![e] + r2);
        assert((seq![e] + r).last() == r.last());
        let p2 = name_parts(r2);
        let front = match own {
            Some(t) => seq![t] + p2,
            None => p2,
        };
        assert(name_parts(seq![e] + r2) == front);
        match dict_get(r.last(), "T".spec_bytes()) {
            Some(x) => match spec_string_value(x) {
                Some(y) => {
                    assert(name_parts(r) == p2.push(y));
                    assert(name_parts(seq![e] + r) == front.push(y));
                    if let Some(t) = own {
                        assert((seq![t] + p2).push(y) =~= seq![t] + p2.push(y));
                    }
                },
                None => {
                    assert(name_parts(r) == p2);
                    assert(name_parts(seq![e] + r) == front);
                },
            },
            None => {
                assert(name_parts(r) == p2);
                assert(name_parts(seq![e] + r) == front);
            },
        }
    }
}

/// The fully qualified name of a field is the name of its parent, a dot, and its own
/// partial name: every partial name met up the `/Parent` chain, root first. A
/// dictionary without `/T` adds no part; one without a parent starts the name; an id
/// that reaches no dictionary has no name.
pub proof fn law_field_name_joins_parent(d: DocView, id: ObjectId)
    requires
        walk_ends(d, id, Inherited::Nothing),
    ensures
        node_dict(d, id) is None ==> spec_field_name(d, id) is None,
        node_dict(d, id) matches Some(e) ==> spec_field_name(d, id) == match (
            match parent_of(e) {
                Some(p) => spec_field_name(d, p),
                None => None,
            },
            partial_name(e),
        ) {
            (Some(a), Some(b)) => Some(a + seq!['.'] + b),
            (Some(a), None) => Some(a),
            (None, b) => b,
        },
{
    let f = choose|f: nat| walk(d, id, f, Inherited::Nothing) is Some;
    lemma_walk_fuel(d, id, f, Inherited::Nothing);
    match node_dict(d, id) {
        None => {
            assert(spec_walk(d, id, Inherited::Nothing) =~= Seq::<Entries>::empty());
        },
        Some(e) => {
            let w = spec_walk(d, id, Inherited::Nothing);
            match parent_of(e) {
                None => {
                    assert(w =~= seq![e] + Seq::<Entries>::empty());
                    lemma_name_parts_front(e, Seq::empty());
                    assert(name_parts(Seq::<Entries>::empty()) =~= Seq::<Seq<char>>::empty());
                    if let Some(t) = partial_name(e) {
                        assert(seq![t] + Seq::<Seq<char>>::empty() =~= seq![t]);
                    }
                },
                Some(p) => {
                    let r = walk(d, p, (f - 1) as nat, Inherited::Nothing)->Some_0;
                    lemma_walk_fuel(d, p, (f - 1) as nat, Inherited::Nothing);
                    assert(w == seq![e] + r);
                    lemma_name_parts_front(e, r);
                    let ps = name_parts(r);
                    if let Some(t) = partial_name(e) {
                        let q = seq![t] + ps;
                        assert(q.drop_first() =~= ps);
                        assert(q[0] == t);
                    }
                },
            }
        },
    }
}

// ---------------------------------------------------------------------------
// Looking up a value by field name.
// ---------------------------------------------------------------------------

/// A field's value comes from a pair whose key is exactly its name, the first such
/// pair; there is none exactly when no key equals the name.
pub proof fn law_lookup_exact(data: Seq<(Seq<char>, Seq<char>)>, n: Seq<char>)
    ensures
        spec_lookup(data, n) is None <==> forall|i: int| 0 <= i < data.len() ==> (#[trigger] data[i]).0 != n,
        spec_lookup(data, n) matches Some(v) ==> exists|i: int|
            0 <= i < data.len() && (#[trigger] data[i]).0 == n && data[i].1 == v && forall|j: int|
                0 <= j < i ==> data[j].0 != n,
    decreases data.len(),
{
    if data.len() > 0 {
        let rest = data.drop_first();
        law_lookup_exact(rest, n);
        if data[0].0 == n {
            assert(data[0].0 == n);
        } else {
            assert forall|i: int| 0 < i < data.len() implies #[trigger] data[i] == rest[i - 1] by {}
            if spec_lookup(rest, n) is None {
                assert forall|i: int| 0 <= i < data.len() implies (#[trigger] data[i]).0 != n by {
                    if i > 0 {
                        assert(data[i] == rest[i - 1]);
                    }
                }
            } else {
                let v = spec_lookup(rest, n)->Some_0;
                let i = choose|i: int|
                    0 <= i < rest.len() && (#[trigger] rest[i]).0 == n && rest[i].1 == v && forall|j: int|
                        0 <= j < i ==> rest[j].0 != n;
                assert(data[i + 1] == rest[i]);
                assert forall|j: int| 0 <= j < i + 1 implies data[j].0 != n by {
                    if j > 0 {
                        assert(data[j] == rest[j - 1]);
                    }
                }
            }
        }
    }
}

// ---------------------------------------------------------------------------
// The font size operand of a default appearance.
// ---------------------------------------------------------------------------

proof fn lemma_first_tf_exists(t: Seq<Seq<char>>, n: int)
    requires
        n <= t.len(),
        exists|i: int| 1 <= i < n && t[i] == tf_word(),
    ensures
        exists|i: int| is_first_tf(t, i),
    decreases n,
{
    if exists|i: int| 1 <= i < n - 1 && t[i] == tf_word() {
        lemma_first_tf_exists(t, n - 1);
    } else {
        assert(is_first_tf(t, n - 1));
    }
}

/// The font size operand of a `/DA` is the word just before its first `Tf` that is
/// not its first word, however many words come before it; there is none exactly when
/// no word past the first is `Tf`.
pub proof fn law_size_token_first_tf(da: Seq<char>)
    ensures
        forall|i: int|
            1 <= i < words(da).len() && #[trigger] words(da)[i] == seq!['T', 'f'] && (forall|j: int|
                1 <= j < i ==> words(da)[j] != seq!['T', 'f']) ==> spec_size_token(da) == Some(words(da)[i - 1]),
        spec_size_token(da) is None <==> forall|i: int|
            1 <= i < words(da).len() ==> #[trigger] words(da)[i] != seq!['T', 'f'],
{
    let t = words(da);
    assert(tf_word() == seq!['T', 'f']);
    assert forall|i: int|
        1 <= i < t.len() && #[trigger] t[i] == seq!['T', 'f'] && (forall|j: int| 1 <= j < i ==> t[j] != seq!['T', 'f'])
        implies spec_size_token(da) == Some(t[i - 1]) by {
        assert(is_first_tf(t, i));
        let c = choose|k: int| is_first_tf(t, k);
        if c < i {
            assert(t[c] != seq!['T', 'f']);
        } else if c > i {
            assert(t[i] != tf_word());
        }
    }
    if exists|i: int| 1 <= i < t.len() && t[i] == seq!['T', 'f'] {
        lemma_first_tf_exists(t, t.len() as int);
    }
}

// ---------------------------------------------------------------------------
// Words.
// ---------------------------------------------------------------------------

/// A text without white space is one word (none if it is empty): no character that is
/// not white space, a hyphen among them, ever ends a word.
pub proof fn law_words_unbroken(s: Seq<char>)
    requires
        forall|i: int| 0 <= i < s.len() ==> !spec_is_whitespace(#[trigger] s[i]),
    ensures
        s.len() == 0 ==> words(s) == Seq::<Seq<char>>::empty(),
        s.len() > 0 ==> words(s) == seq![s],
    decreases s.len(),
{
    if s.len() > 1 {
        law_words_unbroken(s.drop_last());
        assert(!spec_is_whitespace(s[s.len() - 2]));
        assert(!spec_is_whitespace(s.last()));
        let w = seq![s.drop_last()];
        assert(words(s.drop_last()) == w);
        assert(words(s) == w.update(w.len() - 1, w.last().push(s.last())));
        assert(s.drop_last().push(s.last()) =~= s);
        assert(w.update(0, s) =~= seq![s]);
    } else if s.len() == 1 {
        assert(!spec_is_whitespace(s.last()));
        assert(s.drop_last() =~= Seq::<char>::empty());
        assert(words(s.drop_last()) =~= Seq::<Seq<char>>::empty());
        assert(words(s) == Seq::<Seq<char>>::empty().push(seq![s.last()]));
        assert(seq![s.last()] =~= s);
        assert(Seq::<Seq<char>>::empty().push(s) =~= seq![s]);
    }
}

/// A white-space character separates words: the words of `a`, a white-space character
/// and `b` are the words of `a` followed by those of `b`.
pub proof fn law_words_split(a: Seq<char>, c: char, b: Seq<char>)
    requires
        spec_is_whitespace(c),
    ensures
        words(a + seq![c] + b) == words(a) + words(b),
    decreases b.len(),
{
    let s = a + seq![c] + b;
    if b.len() == 0 {
        assert(s.drop_last() =~= a);
        assert(words(b) =~= Seq::<Seq<char>>::empty());
        assert(words(a) + words(b) =~= words(a));
    } else {
        let b2 = b.drop_last();
        law_words_split(a, c, b2);
        assert(s.drop_last() =~= a + seq![c] + b2);
        let x = s.last();
        assert(x == b.last());
        let wa = words(a);
        let wb2 = words(b2);
        if spec_is_whitespace(x) {
        } else if b.len() == 1 {
            assert(s[s.len() - 2] == c);
            assert(b2 =~= Seq::<char>::empty());
            assert(wb2 =~= Seq::<Seq<char>>::empty());
            assert((wa + wb2).push(seq![x]) =~= wa + wb2.push(seq![x]));
        } else {
            assert(s[s.len() - 2] == b[b.len() - 2]);
            if spec_is_whitespace(b[b.len() - 2]) {
                assert((wa + wb2).push(seq![x]) =~= wa + wb2.push(seq![x]));
            } else {
                lemma_words_nonempty(b2);
                let w = wa + wb2;
                assert(w.last() == wb2.last());
                assert(w.update(w.len() - 1, w.last().push(x)) =~= wa + wb2.update(
                    wb2.len() - 1,
                    wb2.last().push(x),
                ));
            }
        }
    }
}

} // verus!
