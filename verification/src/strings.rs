//! Character-level string comparisons.
//!
//! Run and metric identities are strings; the library compares them by their
//! character sequences so that contracts can speak of `Seq<char>` views.

use vstd::prelude::*;
use vstd::string::StrSliceExecFns;

verus! {

/// Lexicographic order on character sequences, by Unicode scalar value.
pub open spec fn seq_char_le(a: Seq<char>, b: Seq<char>) -> bool
    decreases a.len(),
{
    if a.len() == 0 {
        true
    } else if b.len() == 0 {
        false
    } else if a[0] == b[0] {
        seq_char_le(a.drop_first(), b.drop_first())
    } else {
        a[0] < b[0]
    }
}

/// The views of a sequence of strings, as sequences of characters.
pub open spec fn name_views(s: Seq<String>) -> Seq<Seq<char>> {
    s.map(|i: int, x: String| x@)
}

/// True when some element of `names` has the characters `name`.
pub open spec fn has_name(names: Seq<String>, name: Seq<char>) -> bool {
    exists|i: int| 0 <= i < names.len() && names[i]@ == name
}

/// `names` with every occurrence of `name` removed, keeping the order of the
/// rest.
pub open spec fn remove_name(names: Seq<String>, name: Seq<char>) -> Seq<String>
    decreases names.len(),
{
    if names.len() == 0 {
        Seq::empty()
    } else if names.last()@ == name {
        remove_name(names.drop_last(), name)
    } else {
        remove_name(names.drop_last(), name).push(names.last())
    }
}

/// True when `names` holds a string with the characters of `name`.
pub fn contains_name(names: &Vec<String>, name: &str) -> (b: bool)
    ensures
        b == has_name(names@, name@),
{
    let n = names.len();
    let mut i: usize = 0;
    while i < n
        invariant
            i <= n,
            n == names@.len(),
            forall|j: int| 0 <= j < i ==> names@[j]@ != name@,
        decreases n - i,
    {
        if str_eq(names[i].as_str(), name) {
            return true;
        }
        i = i + 1;
    }
    false
}

/// [`seq_char_le`] is reflexive.
pub proof fn lemma_seq_char_le_refl(a: Seq<char>)
    ensures
        seq_char_le(a, a),
    decreases a.len(),
{
    if a.len() > 0 {
        lemma_seq_char_le_refl(a.drop_first());
    }
}

/// [`seq_char_le`] is total: one direction always holds.
pub proof fn lemma_seq_char_le_total(a: Seq<char>, b: Seq<char>)
    ensures
        seq_char_le(a, b) || seq_char_le(b, a),
    decreases a.len(),
{
    if a.len() > 0 && b.len() > 0 {
        if a[0] == b[0] {
            lemma_seq_char_le_total(a.drop_first(), b.drop_first());
        }
    }
}

/// [`seq_char_le`] is transitive.
pub proof fn lemma_seq_char_le_trans(a: Seq<char>, b: Seq<char>, c: Seq<char>)
    requires
        seq_char_le(a, b),
        seq_char_le(b, c),
    ensures
        seq_char_le(a, c),
    decreases a.len(),
{
    if a.len() > 0 {
        assert(b.len() > 0);
        assert(c.len() > 0);
        if a[0] == b[0] && b[0] == c[0] {
            lemma_seq_char_le_trans(a.drop_first(), b.drop_first(), c.drop_first());
        }
    }
}

/// Character-wise string equality.
pub fn str_eq(a: &str, b: &str) -> (r: bool)
    ensures
        r == (a@ == b@),
{
    let la = a.unicode_len();
    let lb = b.unicode_len();
    if la != lb {
        return false;
    }
    let mut i: usize = 0;
    while i < la
        invariant
            i <= la,
            la == a@.len(),
            la == b@.len(),
            forall|j: int| 0 <= j < i ==> a@[j] == b@[j],
        decreases la - i,
    {
        if a.get_char(i) != b.get_char(i) {
            return false;
        }
        i = i + 1;
    }
    proof {
        assert(a@ =~= b@);
    }
    true
}

/// Character-wise lexicographic comparison: true when `a` sorts at or before
/// `b`.
pub fn str_le(a: &str, b: &str) -> (r: bool)
    ensures
        r == seq_char_le(a@, b@),
{
    let la = a.unicode_len();
    let lb = b.unicode_len();
    let mut i: usize = 0;
    proof {
        assert(a@.skip(0) =~= a@);
        assert(b@.skip(0) =~= b@);
    }
    loop
        invariant
            i <= la,
            i <= lb,
            la == a@.len(),
            lb == b@.len(),
            seq_char_le(a@, b@) == seq_char_le(a@.skip(i as int), b@.skip(i as int)),
        decreases la - i,
    {
        proof {
            lemma_seq_char_le_step(a@, b@, i as int);
        }
        if i == la {
            return true;
        }
        if i == lb {
            return false;
        }
        let ca = a.get_char(i);
        let cb = b.get_char(i);
        if ca != cb {
            return ca < cb;
        }
        i = i + 1;
    }
}

/// Unfolds one comparison step of [`seq_char_le`] on suffixes.
proof fn lemma_seq_char_le_step(a: Seq<char>, b: Seq<char>, i: int)
    requires
        0 <= i <= a.len(),
        0 <= i <= b.len(),
    ensures
        i < a.len() && i < b.len() && a[i] == b[i] ==> seq_char_le(a.skip(i), b.skip(i))
            == seq_char_le(a.skip(i + 1), b.skip(i + 1)),
        i == a.len() ==> seq_char_le(a.skip(i), b.skip(i)),
        i == b.len() && i < a.len() ==> !seq_char_le(a.skip(i), b.skip(i)),
        i < a.len() && i < b.len() && a[i] != b[i] ==> seq_char_le(a.skip(i), b.skip(i)) == (a[i]
            < b[i]),
{
    if i < a.len() && i < b.len() {
        assert(a.skip(i).drop_first() == a.skip(i + 1));
        assert(b.skip(i).drop_first() == b.skip(i + 1));
        assert(a.skip(i)[0] == a[i]);
        assert(b.skip(i)[0] == b[i]);
    } else if i == a.len() {
        assert(a.skip(i).len() == 0);
    } else {
        assert(b.skip(i).len() == 0);
        assert(a.skip(i).len() > 0);
    }
}

} // verus!
