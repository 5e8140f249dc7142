//! Fixed-width, NUL-terminated character buffers as the shell reads them.
use vstd::prelude::*;

verus! {

/// Width of a line buffer.
pub const LINE_WIDTH: usize = 80;

/// Length of the string held in `s`: the index of its first NUL, or the
/// buffer's width when it holds none.
pub open spec fn len_from(s: Seq<char>, i: int) -> int
    decreases 80 - i,
{
    if i >= 80 || i >= s.len() {
        i
    } else if s[i] == '\0' {
        i
    } else {
        len_from(s, i + 1)
    }
}

pub open spec fn spec_strlen(s: Seq<char>) -> int {
    len_from(s, 0)
}

/// Three-way comparison of `a` and `b` on the positions `i..n`: the sign of
/// the first position where they differ, 0 where none does.
pub open spec fn compare_from(a: Seq<char>, b: Seq<char>, i: int, n: int) -> int
    decreases n - i,
{
    if i >= n {
        0
    } else if a[i] > b[i] {
        1
    } else if b[i] > a[i] {
        -1
    } else {
        compare_from(a, b, i + 1, n)
    }
}

pub open spec fn spec_min(x: int, y: int) -> int {
    if x <= y { x } else { y }
}

/// What `strcmp` returns: only the common length of both strings is compared.
pub open spec fn spec_strcmp(a: Seq<char>, b: Seq<char>) -> int {
    compare_from(a, b, 0, spec_min(spec_strlen(a), spec_strlen(b)))
}

proof fn lemma_len_from_skip(s: Seq<char>, i: int)
    requires
        s.len() == 80,
        0 <= i <= 80,
        forall|j: int| 0 <= j < i ==> s[j] != '\0',
    ensures
        len_from(s, 0) == len_from(s, i),
    decreases i,
{
    if i > 0 {
        lemma_len_from_skip(s, i - 1);
    }
}

proof fn lemma_len_from_bounds(s: Seq<char>, i: int)
    requires
        s.len() == 80,
        0 <= i <= 80,
    ensures
        i <= len_from(s, i) <= 80,
        forall|j: int| i <= j < len_from(s, i) ==> s[j] != '\0',
        len_from(s, i) < 80 ==> s[len_from(s, i)] == '\0',
    decreases 80 - i,
{
    if i < 80 && s[i] != '\0' {
        lemma_len_from_bounds(s, i + 1);
    }
}

/// The length of the string in `buff`: the number of characters before the
/// first NUL, or 80 when there is none.
pub fn strlen(buff: &[char; 80]) -> (len: usize)
    ensures
        len == spec_strlen(buff@),
        len <= 80,
        forall|j: int| 0 <= j < len ==> buff@[j] != '\0',
        len < 80 ==> buff@[len as int] == '\0',
{
    let mut len: usize = 0;
    while len < 80 && buff[len] != '\0'
        invariant
            len <= 80,
            buff@.len() == 80,
            forall|j: int| 0 <= j < len ==> buff@[j] != '\0',
        decreases 80 - len,
    {
        len += 1;
    }
    proof {
        lemma_len_from_skip(buff@, len as int);
        lemma_len_from_bounds(buff@, 0);
    }
    len
}

proof fn lemma_compare_from_equal_prefix(a: Seq<char>, b: Seq<char>, i: int, n: int)
    requires
        0 <= i <= n,
        forall|j: int| 0 <= j < i ==> a[j] == b[j],
    ensures
        compare_from(a, b, 0, n) == compare_from(a, b, i, n),
    decreases i,
{
    if i > 0 {
        lemma_compare_from_equal_prefix(a, b, i - 1, n);
    }
}

proof fn lemma_equal_prefix_at(a: Seq<char>, b: Seq<char>, i: usize, n: usize)
    requires
        i <= n,
        forall|j: int| 0 <= j < i ==> a[j] == b[j],
    ensures
        compare_from(a, b, 0, n as int) == compare_from(a, b, i as int, n as int),
{
    lemma_compare_from_equal_prefix(a, b, i as int, n as int);
}

/// Compares the strings in two buffers on their common length: 1 when the
/// first differing character is greater in `first`, -1 when it is greater in
/// `second`, and 0 when they agree on all positions before the shorter
/// string's end.
pub fn strcmp(first: &[char; 80], second: &[char; 80]) -> (r: i32)
    ensures
        r == spec_strcmp(first@, second@),
{
    let la = strlen(first);
    let lb = strlen(second);
    let len: usize = if la <= lb { la } else { lb };
    let mut i: usize = 0;
    while i < len
        invariant
            len <= 80,
            i <= len,
            len == spec_min(spec_strlen(first@), spec_strlen(second@)),
            first@.len() == 80,
            second@.len() == 80,
            forall|j: int| 0 <= j < i ==> first@[j] == second@[j],
        decreases len - i,
    {
        if first[i] > second[i] {
            proof {
                lemma_equal_prefix_at(first@, second@, i, len);
            }
            return 1;
        } else if second[i] > first[i] {
            proof {
                lemma_equal_prefix_at(first@, second@, i, len);
            }
            return -1;
        }
        i += 1;
    }
    proof {
        lemma_equal_prefix_at(first@, second@, i, len);
    }
    0
}

/// Swapping the arguments of the comparison negates its result.
pub proof fn strcmp_antisymmetric(a: Seq<char>, b: Seq<char>)
    ensures
        spec_strcmp(a, b) == -spec_strcmp(b, a),
{
    lemma_compare_from_antisymmetric(a, b, 0, spec_min(spec_strlen(a), spec_strlen(b)));
    assert(spec_min(spec_strlen(a), spec_strlen(b)) == spec_min(spec_strlen(b), spec_strlen(a)));
}

proof fn lemma_compare_from_antisymmetric(a: Seq<char>, b: Seq<char>, i: int, n: int)
    ensures
        compare_from(a, b, i, n) == -compare_from(b, a, i, n),
    decreases n - i,
{
    if i < n {
        lemma_compare_from_antisymmetric(a, b, i + 1, n);
    }
}

/// A string compares equal to itself.
pub proof fn strcmp_reflexive(a: Seq<char>)
    ensures
        spec_strcmp(a, a) == 0,
{
    lemma_compare_from_reflexive(a, 0, spec_strlen(a));
}

proof fn lemma_compare_from_reflexive(a: Seq<char>, i: int, n: int)
    ensures
        compare_from(a, a, i, n) == 0,
    decreases n - i,
{
    if i < n {
        lemma_compare_from_reflexive(a, i + 1, n);
    }
}

} // verus!
