//! Verified helpers on strings and name lists: equality, lexicographic
//! order, and first-match lookup.

use vstd::prelude::*;
use vstd::string::StrSliceExecFns;

verus! {

/// Strict lexicographic order on character sequences, comparing Unicode
/// scalar values position by position; a proper prefix precedes its
/// extensions.
pub open spec fn lex_lt(a: Seq<char>, b: Seq<char>) -> bool
    decreases a.len(),
{
    if b.len() == 0 {
        false
    } else if a.len() == 0 {
        true
    } else if a[0] == b[0] {
        lex_lt(a.drop_first(), b.drop_first())
    } else {
        (a[0] as int) < (b[0] as int)
    }
}

/// Index of the first entry of `s` equal to `x`, or `-1` if there is none.
pub open spec fn find_name(s: Seq<Seq<char>>, x: Seq<char>) -> int
    decreases s.len(),
{
    if s.len() == 0 {
        -1
    } else if s[0] == x {
        0
    } else {
        let r = find_name(s.drop_first(), x);
        if r < 0 {
            -1
        } else {
            r + 1
        }
    }
}

/// No two entries of `s` are equal.
pub open spec fn distinct_names(s: Seq<Seq<char>>) -> bool {
    forall|i: int, j: int| 0 <= i < j < s.len() ==> s[i] != s[j]
}

/// What `find_name` returns: a nonnegative result is the first match, a
/// negative result means there is no match at all.
pub proof fn lemma_find_name(s: Seq<Seq<char>>, x: Seq<char>)
    ensures
        find_name(s, x) >= 0 ==> 0 <= find_name(s, x) < s.len() && s[find_name(s, x)] == x
            && (forall|k: int| 0 <= k < find_name(s, x) ==> s[k] != x),
        find_name(s, x) < 0 ==> find_name(s, x) == -1 && (forall|k: int|
            0 <= k < s.len() ==> s[k] != x),
    decreases s.len(),
{
    if s.len() > 0 && s[0] != x {
        lemma_find_name(s.drop_first(), x);
        assert(forall|k: int| 1 <= k < s.len() ==> s[k] == s.drop_first()[k - 1]);
    }
}

/// `find_name` returns `i` when `s[i] == x` and no earlier entry matches.
pub proof fn lemma_find_name_first(s: Seq<Seq<char>>, x: Seq<char>, i: int)
    requires
        0 <= i < s.len(),
        s[i] == x,
        forall|k: int| 0 <= k < i ==> s[k] != x,
    ensures
        find_name(s, x) == i,
    decreases s.len(),
{
    if i > 0 {
        assert(s.drop_first()[i - 1] == x);
        assert(forall|k: int| 0 <= k < i - 1 ==> s.drop_first()[k] == s[k + 1]);
        lemma_find_name_first(s.drop_first(), x, i - 1);
    }
}

/// In a list of distinct names, each entry is found at its own position.
pub proof fn lemma_find_name_self(s: Seq<Seq<char>>, i: int)
    requires
        distinct_names(s),
        0 <= i < s.len(),
    ensures
        find_name(s, s[i]) == i,
{
    lemma_find_name_first(s, s[i], i);
}

/// Index of the first pair of `s` whose key has the characters `x`, or `-1`
/// if there is none.
pub open spec fn key_find<T>(s: Seq<(String, T)>, x: Seq<char>) -> int
    decreases s.len(),
{
    if s.len() == 0 {
        -1
    } else if s[0].0@ == x {
        0
    } else {
        let r = key_find(s.drop_first(), x);
        if r < 0 {
            -1
        } else {
            r + 1
        }
    }
}

/// What `key_find` returns, in the same way as [`lemma_find_name`].
pub proof fn lemma_key_find<T>(s: Seq<(String, T)>, x: Seq<char>)
    ensures
        key_find(s, x) >= 0 ==> 0 <= key_find(s, x) < s.len() && s[key_find(s, x)].0@ == x
            && (forall|k: int| 0 <= k < key_find(s, x) ==> s[k].0@ != x),
        key_find(s, x) < 0 ==> key_find(s, x) == -1 && (forall|k: int|
            0 <= k < s.len() ==> s[k].0@ != x),
    decreases s.len(),
{
    if s.len() > 0 && s[0].0@ != x {
        lemma_key_find(s.drop_first(), x);
        assert(forall|k: int| 1 <= k < s.len() ==> s[k] == s.drop_first()[k - 1]);
    }
}

/// `key_find` returns `i` when the key of `s[i]` is `x` and no earlier key is.
pub proof fn lemma_key_find_first<T>(s: Seq<(String, T)>, x: Seq<char>, i: int)
    requires
        0 <= i < s.len(),
        s[i].0@ == x,
        forall|k: int| 0 <= k < i ==> s[k].0@ != x,
    ensures
        key_find(s, x) == i,
    decreases s.len(),
{
    if i > 0 {
        assert(s.drop_first()[i - 1].0@ == x);
        assert(forall|k: int| 0 <= k < i - 1 ==> s.drop_first()[k] == s[k + 1]);
        lemma_key_find_first(s.drop_first(), x, i - 1);
    }
}

/// First index of a name in a list of strings, relating the scan to
/// [`find_name`] on the list's character sequences.
pub fn find_name_in(names: &Vec<String>, target: &str) -> (r: Option<usize>)
    ensures
        match r {
            Some(i) => i < names.len() && find_name(names.deep_view(), target@) == i as int,
            None => find_name(names.deep_view(), target@) == -1,
        },
{
    let mut i: usize = 0;
    while i < names.len()
        invariant
            0 <= i <= names@.len(),
            names.deep_view().len() == names@.len(),
            forall|k: int| 0 <= k < names@.len() ==> names.deep_view()[k] == names@[k]@,
            forall|k: int| 0 <= k < i ==> names.deep_view()[k] != target@,
        decreases names@.len() - i,
    {
        if str_eq(names[i].as_str(), target) {
            proof {
                lemma_find_name_first(names.deep_view(), target@, i as int);
            }
            return Some(i);
        }
        i += 1;
    }
    proof {
        lemma_find_name(names.deep_view(), target@);
    }
    None
}

/// First index of a key in an association list, relating the scan to
/// [`key_find`] on the list.
pub fn find_key_in<T>(list: &Vec<(String, T)>, target: &str) -> (r: Option<usize>)
    ensures
        match r {
            Some(i) => i < list.len() && key_find(list@, target@) == i as int,
            None => key_find(list@, target@) == -1,
        },
{
    let mut i: usize = 0;
    while i < list.len()
        invariant
            0 <= i <= list@.len(),
            forall|k: int| 0 <= k < i ==> list@[k].0@ != target@,
        decreases list@.len() - i,
    {
        if str_eq(list[i].0.as_str(), target) {
            proof {
                lemma_key_find_first(list@, target@, i as int);
            }
            return Some(i);
        }
        i += 1;
    }
    proof {
        lemma_key_find(list@, target@);
    }
    None
}

/// Whether the character sequences of two string slices are equal.
pub fn str_eq(a: &str, b: &str) -> (r: bool)
    ensures
        r == (a@ == b@),
{
    let la = a.unicode_len();
    let lb = b.unicode_len();
    if la != lb {
        return false;
    }
    let mut i: usize = 0;
    while i < la
        invariant
            0 <= i <= la,
            la == a@.len(),
            lb == b@.len(),
            la == lb,
            forall|k: int| 0 <= k < i ==> a@[k] == b@[k],
        decreases la - i,
    {
        let ca = a.get_char(i);
        let cb = b.get_char(i);
        if ca != cb {
            return false;
        }
        i += 1;
    }
    proof {
        assert(a@ =~= b@);
    }
    true
}

/// Whether `a` precedes `b` in strict lexicographic order; agrees with
/// [`lex_lt`] on the two character sequences.
pub fn str_lt(a: &str, b: &str) -> (r: bool)
    ensures
        r == lex_lt(a@, b@),
{
    let la = a.unicode_len();
    let lb = b.unicode_len();
    let bound: usize = if la < lb {
        la
    } else {
        lb
    };
    let mut i: usize = 0;
    proof {
        assert(a@.skip(0) =~= a@);
        assert(b@.skip(0) =~= b@);
    }
    while i < bound
        invariant
            0 <= i <= bound,
            la == a@.len(),
            lb == b@.len(),
            bound == if la < lb { la as int } else { lb as int },
            lex_lt(a@, b@) == lex_lt(a@.skip(i as int), b@.skip(i as int)),
        decreases bound - i,
    {
        let ca = a.get_char(i);
        let cb = b.get_char(i);
        proof {
            assert(a@.skip(i as int)[0] == a@[i as int]);
            assert(b@.skip(i as int)[0] == b@[i as int]);
        }
        if ca != cb {
            return (ca as u32) < (cb as u32);
        }
        proof {
            assert(a@.skip(i as int).drop_first() =~= a@.skip(i + 1));
            assert(b@.skip(i as int).drop_first() =~= b@.skip(i + 1));
        }
        i += 1;
    }
    proof {
        assert(a@.skip(i as int).len() == la - i);
        assert(b@.skip(i as int).len() == lb - i);
    }
    la < lb
}

} // verus!
