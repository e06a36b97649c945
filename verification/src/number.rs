//! Validation of number drafts typed into a settings field.
use vstd::prelude::*;

verus! {

/// Number of characters after the first `.` of `s`, if `s` has one.
pub open spec fn chars_after_first_dot(s: Seq<char>) -> Option<nat>
    decreases s.len(),
{
    if s.len() == 0 {
        None
    } else if s[0] == '.' {
        Some((s.len() - 1) as nat)
    } else {
        chars_after_first_dot(s.drop_first())
    }
}

/// No more than `decimal_places` characters follow the first `.`, if any.
pub open spec fn at_most_decimal_places(s: Seq<char>, decimal_places: nat) -> bool {
    match chars_after_first_dot(s) {
        None => true,
        Some(n) => n <= decimal_places,
    }
}

proof fn lemma_first_dot(s: Seq<char>, k: int)
    requires
        0 <= k < s.len(),
        s[k] == '.',
        forall|j: int| 0 <= j < k ==> s[j] != '.',
    ensures
        chars_after_first_dot(s) == Some((s.len() - k - 1) as nat),
    decreases k,
{
    if k > 0 {
        let rest = s.drop_first();
        assert forall|j: int| 0 <= j < k - 1 implies rest[j] != '.' by {
            assert(rest[j] == s[j + 1]);
        }
        lemma_first_dot(rest, k - 1);
    }
}

proof fn lemma_no_dot(s: Seq<char>)
    requires
        forall|j: int| 0 <= j < s.len() ==> s[j] != '.',
    ensures
        chars_after_first_dot(s) is None,
    decreases s.len(),
{
    if s.len() > 0 {
        let rest = s.drop_first();
        assert forall|j: int| 0 <= j < rest.len() implies rest[j] != '.' by {
            assert(rest[j] == s[j + 1]);
        }
        lemma_no_dot(rest);
    }
}

/// Whether a draft has at most `decimal_places` digits after its decimal
/// point: text without a `.` always passes, so drafts such as `""` or `"1."`
/// stay editable.
pub fn has_at_most_decimal_places(value: &str, decimal_places: usize) -> (r: bool)
    ensures
        r == at_most_decimal_places(value@, decimal_places as nat),
{
    let mut seen_dot = false;
    let mut count: usize = 0;
    let ghost mut dot: int = 0;
    for c in it: value.chars()
        invariant
            it.seq() == value@,
            !seen_dot ==> count == 0 && forall|j: int| 0 <= j < it.index() ==> value@[j] != '.',
            seen_dot ==> 0 <= dot < it.index() && value@[dot] == '.' && (forall|j: int|
                0 <= j < dot ==> value@[j] != '.') && count == it.index() - dot - 1,
            count <= decimal_places,
    {
        if seen_dot {
            if count == decimal_places {
                proof {
                    lemma_first_dot(value@, dot);
                }
                return false;
            }
            count = count + 1;
        } else if c == '.' {
            seen_dot = true;
            proof {
                dot = it.index() as int;
                assert(value@[dot] == c);
            }
        }
    }
    proof {
        if seen_dot {
            lemma_first_dot(value@, dot);
        } else {
            lemma_no_dot(value@);
        }
    }
    true
}

} // verus!
