//! Bracket balance: whether `{}`, `()` and `[]` in a text are balanced and
//! correctly matched.
use vstd::prelude::*;

verus! {

pub open spec fn is_opener(c: char) -> bool {
    c == '{' || c == '(' || c == '['
}

pub open spec fn is_closer(c: char) -> bool {
    c == '}' || c == ')' || c == ']'
}

pub open spec fn pairs_with(open: char, close: char) -> bool {
    (open == '{' && close == '}') || (open == '[' && close == ']') || (open == '(' && close
        == ')')
}

/// The openers still unclosed after reading `s` from the left, innermost last;
/// `None` once a closer meets no opener or an opener of another kind.
pub open spec fn open_stack(s: Seq<char>) -> Option<Seq<char>>
    decreases s.len(),
{
    if s.len() == 0 {
        Some(seq![])
    } else {
        match open_stack(s.drop_last()) {
            None => None,
            Some(st) => {
                let c = s.last();
                if is_opener(c) {
                    Some(st.push(c))
                } else if is_closer(c) {
                    if st.len() > 0 && pairs_with(st.last(), c) {
                        Some(st.drop_last())
                    } else {
                        None
                    }
                } else {
                    Some(st)
                }
            },
        }
    }
}

/// Every bracket is closed by one of its own kind, in nesting order.
pub open spec fn balanced(s: Seq<char>) -> bool {
    open_stack(s) == Some(Seq::<char>::empty())
}

/// Once reading fails, reading more does not recover.
pub proof fn lemma_open_stack_fails_on(s: Seq<char>, i: int)
    requires
        0 <= i <= s.len(),
        open_stack(s.subrange(0, i)) is None,
    ensures
        open_stack(s) is None,
    decreases s.len() - i,
{
    if i < s.len() {
        assert(s.subrange(0, i + 1).drop_last() =~= s.subrange(0, i));
        lemma_open_stack_fails_on(s, i + 1);
    } else {
        assert(s.subrange(0, i) =~= s);
    }
}

/// Whether the brackets of `s` are balanced and correctly matched.
pub fn is_balanced(s: &[char]) -> (r: bool)
    ensures
        r == balanced(s@),
{
    let mut stack: Vec<char> = Vec::new();
    let mut i: usize = 0;
    while i < s.len()
        invariant
            i <= s@.len(),
            open_stack(s@.subrange(0, i as int)) == Some(stack@),
        decreases s@.len() - i,
    {
        let c = s[i];
        assert(s@.subrange(0, i + 1).drop_last() =~= s@.subrange(0, i as int));
        if c == '{' || c == '(' || c == '[' {
            stack.push(c);
        } else if c == '}' || c == ')' || c == ']' {
            match stack.pop() {
                None => {
                    proof {
                        lemma_open_stack_fails_on(s@, i + 1);
                    }
                    return false;
                },
                Some(open) => {
                    if !((open == '{' && c == '}') || (open == '[' && c == ']') || (open == '('
                        && c == ')')) {
                        proof {
                            lemma_open_stack_fails_on(s@, i + 1);
                        }
                        return false;
                    }
                },
            }
        }
        i = i + 1;
    }
    assert(s@.subrange(0, s@.len() as int) =~= s@);
    if stack.len() == 0 {
        assert(stack@ =~= Seq::<char>::empty());
        true
    } else {
        false
    }
}

} // verus!
