//! Text utilities shared by the configuration loader: whitespace trimming,
//! character search, and verified string equality.

use vstd::prelude::*;

verus! {

/// The whitespace characters that trimming removes: the ASCII space and the
/// ASCII control characters that count as blank space in a text file.
pub open spec fn is_space_char(c: char) -> bool {
    c == ' ' || c == '\t' || c == '\n' || c == '\r' || c == '\u{b}' || c == '\u{c}'
}

/// Executable test for [`is_space_char`].
#[verifier::when_used_as_spec(is_space_char)]
pub fn is_space(c: char) -> (r: bool)
    ensures
        r == is_space_char(c),
{
    c == ' ' || c == '\t' || c == '\n' || c == '\r' || c == '\u{b}' || c == '\u{c}'
}

/// `s` with its leading whitespace removed.
pub open spec fn trim_left(s: Seq<char>) -> Seq<char>
    decreases s.len(),
{
    if s.len() > 0 && is_space_char(s[0]) {
        trim_left(s.drop_first())
    } else {
        s
    }
}

/// `s` with its trailing whitespace removed.
pub open spec fn trim_right(s: Seq<char>) -> Seq<char>
    decreases s.len(),
{
    if s.len() > 0 && is_space_char(s[s.len() - 1]) {
        trim_right(s.drop_last())
    } else {
        s
    }
}

/// `s` with whitespace removed from both ends.
pub open spec fn trim_seq(s: Seq<char>) -> Seq<char> {
    trim_right(trim_left(s))
}

/// The index of the first occurrence of `c` in `s`, or `-1` if `c` does not
/// occur.
pub open spec fn find_char(s: Seq<char>, c: char) -> int
    decreases s.len(),
{
    if s.len() == 0 {
        -1
    } else if s[0] == c {
        0
    } else if find_char(s.drop_first(), c) == -1 {
        -1
    } else {
        1 + find_char(s.drop_first(), c)
    }
}

/// `find_char` returns `-1` exactly when `c` does not occur, and otherwise
/// the smallest index holding `c`.
pub proof fn lemma_find_char(s: Seq<char>, c: char)
    ensures
        find_char(s, c) == -1 <==> !s.contains(c),
        find_char(s, c) != -1 ==> 0 <= find_char(s, c) < s.len() && s[find_char(s, c)] == c,
        find_char(s, c) != -1 ==> forall|j: int| 0 <= j < find_char(s, c) ==> s[j] != c,
    decreases s.len(),
{
    if s.len() == 0 {
        assert(!s.contains(c)) by {
            assert(forall|i: int| 0 <= i < s.len() ==> s[i] != c);
        }
    } else if s[0] == c {
        assert(s.contains(c));
    } else {
        lemma_find_char(s.drop_first(), c);
        let rest = s.drop_first();
        if find_char(rest, c) == -1 {
            assert(forall|i: int| 0 <= i < s.len() ==> s[i] != c) by {
                assert(forall|i: int| 1 <= i < s.len() ==> s[i] == rest[i - 1]);
            }
            assert(!s.contains(c));
        } else {
            assert(s.contains(c)) by {
                assert(s[1 + find_char(rest, c)] == c);
            }
            assert(forall|j: int| 0 <= j < 1 + find_char(rest, c) ==> s[j] != c) by {
                assert(forall|j: int| 1 <= j < s.len() ==> s[j] == rest[j - 1]);
            }
        }
    }
}

/// When the characters before `i` are whitespace and the one at `i` (if any)
/// is not, trimming from the left drops exactly the first `i` characters.
pub proof fn lemma_trim_left_subrange(s: Seq<char>, i: int)
    requires
        0 <= i <= s.len(),
        forall|j: int| 0 <= j < i ==> is_space_char(s[j]),
        i == s.len() || !is_space_char(s[i]),
    ensures
        trim_left(s) == s.subrange(i, s.len() as int),
    decreases i,
{
    if i == 0 {
        assert(s.subrange(0, s.len() as int) =~= s);
    } else {
        let rest = s.drop_first();
        lemma_trim_left_subrange(rest, i - 1);
        assert(rest.subrange(i - 1, rest.len() as int) =~= s.subrange(i, s.len() as int));
    }
}

/// When the characters from `i` on are whitespace and the one before `i`
/// (if any) is not, trimming from the right keeps exactly the first `i`
/// characters.
pub proof fn lemma_trim_right_subrange(s: Seq<char>, i: int)
    requires
        0 <= i <= s.len(),
        forall|j: int| i <= j < s.len() ==> is_space_char(s[j]),
        i == 0 || !is_space_char(s[i - 1]),
    ensures
        trim_right(s) == s.subrange(0, i),
    decreases s.len(),
{
    if i == s.len() {
        if s.len() > 0 {
            assert(!is_space_char(s[s.len() - 1]));
        }
        assert(s.subrange(0, s.len() as int) =~= s);
    } else {
        let head = s.drop_last();
        lemma_trim_right_subrange(head, i);
        assert(head.subrange(0, i) =~= s.subrange(0, i));
    }
}

/// Trimming keeps exactly the characters between a whitespace prefix and a
/// whitespace suffix. `start == end` is the all-whitespace case, stated with
/// `end == s.len()` so that the bounds come straight out of a left-to-right
/// scan.
pub proof fn lemma_trim_seq_subrange(s: Seq<char>, start: int, end: int)
    requires
        0 <= start <= end <= s.len(),
        forall|j: int| 0 <= j < start ==> is_space_char(s[j]),
        forall|j: int| end <= j < s.len() ==> is_space_char(s[j]),
        start == end || (!is_space_char(s[start]) && !is_space_char(s[end - 1])),
        start == end ==> end == s.len(),
    ensures
        trim_seq(s) == s.subrange(start, end),
{
    lemma_trim_left_subrange(s, start);
    let t = s.subrange(start, s.len() as int);
    lemma_trim_right_subrange(t, end - start);
    assert(t.subrange(0, end - start) =~= s.subrange(start, end));
}

/// A nonempty trimmed sequence neither begins nor ends with whitespace.
pub proof fn lemma_trim_seq_ends(s: Seq<char>)
    ensures
        trim_seq(s).len() > 0 ==> !is_space_char(trim_seq(s)[0]),
        trim_seq(s).len() > 0 ==> !is_space_char(trim_seq(s)[trim_seq(s).len() - 1]),
{
    lemma_trim_left_head(s);
    let t = trim_left(s);
    if t.len() > 0 {
        lemma_trim_right_keeps_head(t);
    }
    lemma_trim_right_last(t);
}

/// Trimming a sequence twice is the same as trimming it once.
pub proof fn lemma_trim_seq_idempotent(s: Seq<char>)
    ensures
        trim_seq(trim_seq(s)) == trim_seq(s),
{
    lemma_trim_seq_ends(s);
}

/// A nonempty left-trimmed sequence begins with a non-whitespace character.
proof fn lemma_trim_left_head(s: Seq<char>)
    ensures
        trim_left(s).len() > 0 ==> !is_space_char(trim_left(s)[0]),
    decreases s.len(),
{
    if s.len() > 0 && is_space_char(s[0]) {
        lemma_trim_left_head(s.drop_first());
    }
}

/// A nonempty right-trimmed sequence ends with a non-whitespace character.
proof fn lemma_trim_right_last(s: Seq<char>)
    ensures
        trim_right(s).len() > 0 ==> !is_space_char(trim_right(s)[trim_right(s).len() - 1]),
    decreases s.len(),
{
    if s.len() > 0 && is_space_char(s[s.len() - 1]) {
        lemma_trim_right_last(s.drop_last());
    }
}

/// Left-trimming introduces no character that `s` does not hold.
pub proof fn lemma_trim_left_contains(s: Seq<char>, c: char)
    ensures
        trim_left(s).contains(c) ==> s.contains(c),
    decreases s.len(),
{
    if s.len() > 0 && is_space_char(s[0]) {
        lemma_trim_left_contains(s.drop_first(), c);
        if s.drop_first().contains(c) {
            let j = choose|j: int| 0 <= j < s.drop_first().len() && s.drop_first()[j] == c;
            assert(s[j + 1] == c);
        }
    }
}

/// Right-trimming introduces no character that `s` does not hold.
pub proof fn lemma_trim_right_contains(s: Seq<char>, c: char)
    ensures
        trim_right(s).contains(c) ==> s.contains(c),
    decreases s.len(),
{
    if s.len() > 0 && is_space_char(s[s.len() - 1]) {
        lemma_trim_right_contains(s.drop_last(), c);
        if s.drop_last().contains(c) {
            let j = choose|j: int| 0 <= j < s.drop_last().len() && s.drop_last()[j] == c;
            assert(s[j] == c);
        }
    }
}

/// Right-trimming cannot remove a non-whitespace head.
pub proof fn lemma_trim_right_keeps_head(s: Seq<char>)
    requires
        s.len() > 0,
        !is_space_char(s[0]),
    ensures
        trim_right(s).len() > 0,
        trim_right(s)[0] == s[0],
    decreases s.len(),
{
    if is_space_char(s[s.len() - 1]) {
        lemma_trim_right_keeps_head(s.drop_last());
    }
}

/// Whether two string slices hold the same characters.
pub fn str_eq(a: &str, b: &str) -> (r: bool)
    ensures
        r == (a@ == b@),
{
    let a_len = a.unicode_len();
    let b_len = b.unicode_len();
    if a_len != b_len {
        return false;
    }
    let mut i: usize = 0;
    while i < a_len
        invariant
            a_len == a@.len(),
            a_len == b@.len(),
            i <= a_len,
            forall|j: int| 0 <= j < i ==> a@[j] == b@[j],
        decreases a_len - i,
    {
        if a.get_char(i) != b.get_char(i) {
            return false;
        }
        i = i + 1;
    }
    proof {
        assert(a@ =~= b@);
    }
    true
}

} // verus!
