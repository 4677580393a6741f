//! Character sequences: ordering, suffixes, and conversions between `String` and `Vec<char>`.
use vstd::prelude::*;

verus! {

broadcast use vstd::string::group_string_axioms;

/// Code-point order on characters; for UTF-8 text this is the order of the encoded bytes.
pub open spec fn char_lt(a: char, b: char) -> bool {
    a < b
}

/// Strict lexicographic order on character sequences, the order `str` compares by.
pub open spec fn seq_lt(a: Seq<char>, b: Seq<char>) -> bool
    decreases a.len(),
{
    if a.len() == 0 {
        b.len() > 0
    } else if b.len() == 0 {
        false
    } else if a[0] != b[0] {
        char_lt(a[0], b[0])
    } else {
        seq_lt(a.drop_first(), b.drop_first())
    }
}

pub proof fn lemma_seq_lt_irreflexive(a: Seq<char>)
    ensures
        !seq_lt(a, a),
    decreases a.len(),
{
    if a.len() > 0 {
        lemma_seq_lt_irreflexive(a.drop_first());
    }
}

pub proof fn lemma_seq_lt_transitive(a: Seq<char>, b: Seq<char>, c: Seq<char>)
    requires
        seq_lt(a, b),
        seq_lt(b, c),
    ensures
        seq_lt(a, c),
    decreases a.len(),
{
    if a.len() > 0 && b.len() > 0 && c.len() > 0 {
        if a[0] == b[0] && b[0] == c[0] {
            lemma_seq_lt_transitive(a.drop_first(), b.drop_first(), c.drop_first());
        }
    }
}

pub proof fn lemma_seq_lt_total(a: Seq<char>, b: Seq<char>)
    ensures
        a == b || seq_lt(a, b) || seq_lt(b, a),
    decreases a.len(),
{
    if a.len() > 0 && b.len() > 0 {
        if a[0] == b[0] {
            lemma_seq_lt_total(a.drop_first(), b.drop_first());
            if a.drop_first() == b.drop_first() {
                assert(a =~= seq![a[0]] + a.drop_first());
                assert(b =~= seq![b[0]] + b.drop_first());
            }
        } else {
        }
    } else if a.len() == 0 && b.len() == 0 {
        assert(a =~= b);
    }
}

/// The characters of `s`, one element each.
pub fn chars_of(s: &str) -> (r: Vec<char>)
    ensures
        r@ == s@,
{
    let mut out: Vec<char> = Vec::new();
    for c in it: s.chars()
        invariant
            it.seq() == s@,
            out@ == it.seq().take(it.index() as int),
    {
        out.push(c);
    }
    out
}

/// Whether `a` comes strictly before `b` in lexicographic order.
pub fn str_lt(a: &str, b: &str) -> (r: bool)
    ensures
        r == seq_lt(a@, b@),
{
    let x = chars_of(a);
    let y = chars_of(b);
    let mut i: usize = 0;
    assert(x@.skip(0) =~= x@);
    assert(y@.skip(0) =~= y@);
    while i < x.len() && i < y.len() && x[i] == y[i]
        invariant
            i <= x@.len(),
            i <= y@.len(),
            seq_lt(a@, b@) == seq_lt(x@.skip(i as int), y@.skip(i as int)),
        decreases x@.len() - i,
    {
        assert(x@.skip(i as int).drop_first() =~= x@.skip(i + 1));
        assert(y@.skip(i as int).drop_first() =~= y@.skip(i + 1));
        i = i + 1;
    }
    if i == x.len() {
        i < y.len()
    } else if i == y.len() {
        false
    } else {
        x[i] < y[i]
    }
}

} // verus!

verus! {

/// `s` without the trailing `suffix`, if it ends with it.
pub open spec fn strip_suffix_of(s: Seq<char>, suffix: Seq<char>) -> Option<Seq<char>> {
    if s.len() >= suffix.len() && s.subrange(s.len() - suffix.len(), s.len() as int) == suffix {
        Some(s.subrange(0, s.len() - suffix.len()))
    } else {
        None
    }
}

/// `s` without the trailing `suffix`, if it ends with it.
pub fn strip_suffix(s: &str, suffix: &str) -> (r: Option<String>)
    ensures
        match r {
            Some(t) => strip_suffix_of(s@, suffix@) == Some(t@),
            None => strip_suffix_of(s@, suffix@).is_none(),
        },
{
    let x = chars_of(s);
    let y = chars_of(suffix);
    if x.len() < y.len() {
        return None;
    }
    let start = x.len() - y.len();
    let mut i: usize = 0;
    while i < y.len()
        invariant
            x@ == s@,
            y@ == suffix@,
            start + y.len() == x.len(),
            i <= y@.len(),
            forall|j: int| 0 <= j < i ==> x@[start + j] == y@[j],
        decreases y@.len() - i,
    {
        if x[start + i] != y[i] {
            assert(s@.subrange(start as int, s@.len() as int)[i as int] != suffix@[i as int]);
            return None;
        }
        i = i + 1;
    }
    assert(s@.subrange(start as int, s@.len() as int) =~= suffix@);
    Some(String::from_str(s.substring_char(0, start)))
}

/// `a` followed by `b`.
pub fn concat_str(a: &str, b: &str) -> (r: String)
    ensures
        r@ == a@ + b@,
{
    let mut out = String::from_str(a);
    out.append(b);
    out
}

pub fn copy_str(s: &String) -> (r: String)
    ensures
        r@ == s@,
{
    s.clone()
}

} // verus!
