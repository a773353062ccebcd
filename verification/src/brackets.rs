use vstd::prelude::*;

use crate::text::{
    is_whitespace, lemma_non_blank_prefix, lemma_non_blank_push, non_blank, unicode_whitespace,
};

verus! {

/// A last-in, first-out stack.
#[derive(Debug)]
pub struct Pila<T> {
    data: Vec<T>,
}

impl<T> View for Pila<T> {
    type V = Seq<T>;

    /// The stacked values, bottom first.
    closed spec fn view(&self) -> Seq<T> {
        self.data@
    }
}

impl<T> Pila<T> {
    /// An empty stack.
    pub fn new() -> (p: Self)
        ensures
            p@ == Seq::<T>::empty(),
    {
        Pila { data: Vec::new() }
    }

    /// Puts `val` on top of the stack.
    pub fn push(&mut self, val: T)
        ensures
            final(self)@ == old(self)@.push(val),
    {
        self.data.push(val);
    }

    /// Takes the top value off the stack; `None` when the stack is empty.
    pub fn pop(&mut self) -> (r: Option<T>)
        ensures
            old(self)@.len() == 0 ==> r is None && final(self)@ == old(self)@,
            old(self)@.len() > 0 ==> r == Some(old(self)@.last()) && final(self)@
                == old(self)@.drop_last(),
    {
        self.data.pop()
    }

    /// Whether the stack holds no value.
    pub fn vacia(&self) -> (b: bool)
        ensures
            b == (self@.len() == 0),
    {
        self.data.len() == 0
    }
}


/// Reads the next non-whitespace character of `s` at or after index `*pos`
/// (counted in characters) and moves `*pos` just past it; at the end of the
/// text it returns `None` with `*pos` past every character that was skipped.
pub fn next_token(s: &str, pos: &mut usize) -> (r: Option<char>)
    ensures
        forall|i: int| *old(pos) <= i < *final(pos) - 1 ==> unicode_whitespace(#[trigger] s@[i]),
        match r {
            None => {
                &&& *final(pos) as int == if *old(pos) <= s@.len() { s@.len() as int } else { *old(pos) as int }
                &&& forall|i: int| *old(pos) <= i < s@.len() ==> unicode_whitespace(#[trigger] s@[i])
                &&& *old(pos) <= s@.len() ==> non_blank(s@) == non_blank(s@.take(*old(pos) as int))
            },
            Some(c) => {
                &&& *old(pos) < *final(pos) <= s@.len()
                &&& c == s@[*final(pos) - 1]
                &&& !unicode_whitespace(c)
                &&& non_blank(s@.take(*final(pos) as int)) == non_blank(
                    s@.take(*old(pos) as int),
                ).push(c)
            },
        },
{
    let n = s.unicode_len();
    let ghost start = *pos as int;
    while *pos < n && is_whitespace(s.get_char(*pos))
        invariant
            n == s@.len(),
            start <= *pos,
            forall|i: int| start <= i < *pos ==> unicode_whitespace(#[trigger] s@[i]),
            start <= n ==> *pos <= n,
            start > n ==> *pos == start,
            start <= n ==> non_blank(s@.take(*pos as int)) == non_blank(s@.take(start)),
        decreases n - *pos,
    {
        proof {
            assert(s@.take(*pos + 1) =~= s@.take(*pos as int).push(s@[*pos as int]));
            lemma_non_blank_push(s@.take(*pos as int), s@[*pos as int]);
        }
        *pos += 1;
    }
    if *pos >= n {
        proof {
            if start <= n {
                assert(s@.take(n as int) =~= s@);
            }
        }
        return None;
    }
    let c = s.get_char(*pos);
    proof {
        assert(s@.take(*pos + 1) =~= s@.take(*pos as int).push(c));
        lemma_non_blank_push(s@.take(*pos as int), c);
    }
    *pos += 1;
    Some(c)
}

/// How far the opening characters `open` outnumber the closing characters
/// `close` in `t`.
pub open spec fn depth(t: Seq<char>, open: char, close: char) -> int
    decreases t.len(),
{
    if t.len() == 0 {
        0
    } else {
        depth(t.drop_last(), open, close) + if t.last() == open {
            1int
        } else if t.last() == close {
            -1int
        } else {
            0int
        }
    }
}

/// Every `close` in `t` is matched by an earlier `open`, and every `open` by a
/// later `close`; other characters are ignored.
pub open spec fn balanced_pair(t: Seq<char>, open: char, close: char) -> bool {
    &&& forall|i: int| 0 <= i <= t.len() ==> depth(#[trigger] t.take(i), open, close) >= 0
    &&& depth(t, open, close) == 0
}

/// Parentheses and braces are each balanced on their own in `t` (how the two
/// kinds interleave is not checked).
pub open spec fn balanced(t: Seq<char>) -> bool {
    balanced_pair(t, '(', ')') && balanced_pair(t, '{', '}')
}

proof fn lemma_depth_push(t: Seq<char>, c: char, open: char, close: char)
    ensures
        depth(t.push(c), open, close) == depth(t, open, close) + if c == open {
            1int
        } else if c == close {
            -1int
        } else {
            0int
        },
{
    assert(t.push(c).drop_last() =~= t);
}

/// Whether the parentheses and the braces of `s`, whitespace aside, are each
/// balanced.
pub fn parentesis_equilibrados(s: &str) -> (r: bool)
    ensures
        r == balanced(non_blank(s@)),
{
    let mut pila_paren: Pila<char> = Pila::new();
    let mut pila_llaves: Pila<char> = Pila::new();
    let mut pos: usize = 0;
    let ghost u = non_blank(s@);
    proof {
        assert(s@.take(0) =~= Seq::<char>::empty());
        assert(non_blank(s@.take(0)) =~= Seq::<char>::empty());
    }
    loop
        invariant
            pos <= s@.len(),
            u == non_blank(s@),
            ({
                let t = non_blank(s@.take(pos as int));
                &&& t.len() <= u.len()
                &&& u.take(t.len() as int) == t
                &&& pila_paren@.len() == depth(t, '(', ')')
                &&& pila_llaves@.len() == depth(t, '{', '}')
                &&& forall|i: int| 0 <= i <= t.len() ==> depth(#[trigger] u.take(i), '(', ')') >= 0
                &&& forall|i: int| 0 <= i <= t.len() ==> depth(#[trigger] u.take(i), '{', '}') >= 0
            }),
        ensures
            non_blank(s@.take(pos as int)) == u,
        decreases s@.len() - pos,
    {
        let ghost old_pos = pos as int;
        let ghost t0 = non_blank(s@.take(old_pos));
        let tok = next_token(s, &mut pos);
        match tok {
            None => {
                proof {
                    assert(s@.take(s@.len() as int) =~= s@);
                    assert(pos == s@.len());
                    assert(non_blank(s@.take(pos as int)) == t0);
                    assert(u.take(u.len() as int) =~= u);
                }
                break;
            },
            Some(token) => {
                let ghost t1 = non_blank(s@.take(pos as int));
                proof {
                    lemma_non_blank_prefix(s@, pos as int, s@.len() as int);
                    assert(s@.take(s@.len() as int) =~= s@);
                    assert(t1 =~= t0.push(token));
                    assert(u.take(t1.len() as int) == t1);
                    assert(u.take(t1.len() as int) =~= u.take(t0.len() as int).push(token));
                    lemma_depth_push(t0, token, '(', ')');
                    lemma_depth_push(t0, token, '{', '}');
                }
                if token == '(' {
                    pila_paren.push('(');
                } else if token == ')' {
                    if pila_paren.pop().is_none() {
                        proof {
                            assert(depth(u.take(t1.len() as int), '(', ')') < 0);
                        }
                        return false;
                    }
                } else if token == '{' {
                    pila_llaves.push('{');
                } else if token == '}' {
                    if pila_llaves.pop().is_none() {
                        proof {
                            assert(depth(u.take(t1.len() as int), '{', '}') < 0);
                        }
                        return false;
                    }
                }
            },
        }
    }
    pila_paren.vacia() && pila_llaves.vacia()
}

/// The depth of a concatenation is the sum of the depths.
pub proof fn lemma_depth_concat(a: Seq<char>, b: Seq<char>, open: char, close: char)
    ensures
        depth(a + b, open, close) == depth(a, open, close) + depth(b, open, close),
    decreases b.len(),
{
    if b.len() == 0 {
        assert(a + b =~= a);
    } else {
        lemma_depth_concat(a, b.drop_last(), open, close);
        assert((a + b).drop_last() =~= a + b.drop_last());
    }
}

/// A balanced kind stays balanced when two balanced texts are put together.
pub proof fn lemma_balanced_pair_concat(a: Seq<char>, b: Seq<char>, open: char, close: char)
    requires
        balanced_pair(a, open, close),
        balanced_pair(b, open, close),
    ensures
        balanced_pair(a + b, open, close),
{
    let t = a + b;
    assert forall|i: int| 0 <= i <= t.len() implies depth(#[trigger] t.take(i), open, close) >= 0 by {
        if i <= a.len() {
            assert(t.take(i) =~= a.take(i));
        } else {
            assert(t.take(i) =~= a + b.take(i - a.len()));
            lemma_depth_concat(a, b.take(i - a.len()), open, close);
            assert(a.take(a.len() as int) =~= a);
        }
    }
    lemma_depth_concat(a, b, open, close);
}

/// The empty text is balanced.
pub proof fn lemma_balanced_empty()
    ensures
        balanced(Seq::<char>::empty()),
{
    assert forall|i: int| 0 <= i <= 0 implies #[trigger] Seq::<char>::empty().take(i) =~= Seq::<
        char,
    >::empty() by {}
}

/// Two balanced texts put together are balanced.
pub proof fn lemma_balanced_concat(a: Seq<char>, b: Seq<char>)
    requires
        balanced(a),
        balanced(b),
    ensures
        balanced(a + b),
{
    lemma_balanced_pair_concat(a, b, '(', ')');
    lemma_balanced_pair_concat(a, b, '{', '}');
}

/// Wrapping a balanced kind in one more pair keeps it balanced.
proof fn lemma_balanced_pair_wrap(t: Seq<char>, open: char, close: char, x: char, y: char)
    requires
        balanced_pair(t, open, close),
        x != y,
        (x == open && y == close) || (x != open && x != close && y != open && y != close),
    ensures
        balanced_pair(seq![x] + t + seq![y], open, close),
{
    let w = seq![x] + t + seq![y];
    let dx = depth(seq![x], open, close);
    let dy = depth(seq![y], open, close);
    assert(seq![x].drop_last() =~= Seq::<char>::empty());
    assert(seq![y].drop_last() =~= Seq::<char>::empty());
    assert(depth(Seq::<char>::empty(), open, close) == 0);
    assert(dx == if x == open { 1int } else { 0int });
    assert(dy == if y == close { -1int } else { 0int });
    assert forall|i: int| 0 <= i <= w.len() implies depth(#[trigger] w.take(i), open, close) >= 0 by {
        if i == 0 {
            assert(w.take(0) =~= Seq::<char>::empty());
        } else if i <= t.len() + 1 {
            assert(w.take(i) =~= seq![x] + t.take(i - 1));
            lemma_depth_concat(seq![x], t.take(i - 1), open, close);
        } else {
            assert(w.take(i) =~= w);
            lemma_depth_concat(seq![x] + t, seq![y], open, close);
            lemma_depth_concat(seq![x], t, open, close);
            assert(seq![y].drop_last() =~= Seq::<char>::empty());
            assert(t.take(t.len() as int) =~= t);
        }
    }
    lemma_depth_concat(seq![x] + t, seq![y], open, close);
    lemma_depth_concat(seq![x], t, open, close);
    assert(seq![y].drop_last() =~= Seq::<char>::empty());
}

/// A balanced text in parentheses, or in braces, is balanced.
pub proof fn lemma_balanced_wrap(t: Seq<char>)
    requires
        balanced(t),
    ensures
        balanced(seq!['('] + t + seq![')']),
        balanced(seq!['{'] + t + seq!['}']),
{
    lemma_balanced_pair_wrap(t, '(', ')', '(', ')');
    lemma_balanced_pair_wrap(t, '{', '}', '(', ')');
    lemma_balanced_pair_wrap(t, '(', ')', '{', '}');
    lemma_balanced_pair_wrap(t, '{', '}', '{', '}');
}

/// The characters of a text that are not whitespace are those of its two
/// parts, in order.
pub proof fn lemma_non_blank_concat(a: Seq<char>, b: Seq<char>)
    ensures
        non_blank(a + b) == non_blank(a) + non_blank(b),
    decreases b.len(),
{
    if b.len() == 0 {
        assert(a + b =~= a);
        assert(non_blank(a) + non_blank(b) =~= non_blank(a));
    } else {
        lemma_non_blank_concat(a, b.drop_last());
        assert((a + b).drop_last() =~= a + b.drop_last());
        assert((a + b).last() == b.last());
        if !unicode_whitespace(b.last()) {
            assert(non_blank(a) + non_blank(b.drop_last()).push(b.last()) =~= (non_blank(a)
                + non_blank(b.drop_last())).push(b.last()));
        }
    }
}

/// Texts that `parentesis_equilibrados` accepts stay accepted when put one
/// after the other.
pub proof fn lemma_accepted_texts_concat(a: Seq<char>, b: Seq<char>)
    requires
        balanced(non_blank(a)),
        balanced(non_blank(b)),
    ensures
        balanced(non_blank(a + b)),
{
    lemma_non_blank_concat(a, b);
    lemma_balanced_concat(non_blank(a), non_blank(b));
}

/// A text that `parentesis_equilibrados` accepts stays accepted inside a pair
/// of parentheses or of braces.
pub proof fn lemma_accepted_text_wrap(t: Seq<char>)
    requires
        balanced(non_blank(t)),
    ensures
        balanced(non_blank(seq!['('] + t + seq![')'])),
        balanced(non_blank(seq!['{'] + t + seq!['}'])),
{
    lemma_balanced_wrap(non_blank(t));
    let pairs = seq![('(', ')'), ('{', '}')];
    assert forall|k: int| 0 <= k < 2 implies balanced(non_blank(
        seq![(#[trigger] pairs[k]).0] + t + seq![pairs[k].1],
    )) by {
        let x = pairs[k].0;
        let y = pairs[k].1;
        assert(!unicode_whitespace(x) && !unicode_whitespace(y));
        lemma_non_blank_concat(seq![x], t);
        lemma_non_blank_concat(seq![x] + t, seq![y]);
        assert(seq![x].drop_last() =~= Seq::<char>::empty());
        assert(seq![y].drop_last() =~= Seq::<char>::empty());
        assert(non_blank(Seq::<char>::empty()) =~= Seq::<char>::empty());
        assert(non_blank(seq![x]) =~= seq![x]);
        assert(non_blank(seq![y]) =~= seq![y]);
    }
    assert(pairs[0] == ('(', ')'));
    assert(pairs[1] == ('{', '}'));
}

/// What `Pila::pop` gives back after `Pila::push`: the pushed value, and the
/// stack as it was.
pub proof fn lemma_push_then_pop<T>(s: Seq<T>, v: T)
    ensures
        s.push(v).len() > 0,
        s.push(v).last() == v,
        s.push(v).drop_last() == s,
{
    assert(s.push(v).drop_last() =~= s);
}

/// `c` is one of the four characters that `parentesis_equilibrados` looks at.
pub open spec fn is_bracket(c: char) -> bool {
    c == '(' || c == ')' || c == '{' || c == '}'
}

/// The parentheses and braces of `s`, in order.
pub open spec fn only_brackets(s: Seq<char>) -> Seq<char>
    decreases s.len(),
{
    if s.len() == 0 {
        Seq::empty()
    } else if is_bracket(s.last()) {
        only_brackets(s.drop_last()).push(s.last())
    } else {
        only_brackets(s.drop_last())
    }
}

/// Every prefix of `t` has a depth of at least zero.
pub open spec fn prefixes_nonneg(t: Seq<char>, open: char, close: char) -> bool {
    forall|i: int| 0 <= i <= t.len() ==> depth(#[trigger] t.take(i), open, close) >= 0
}

proof fn lemma_prefixes_push(t: Seq<char>, x: char, open: char, close: char)
    ensures
        prefixes_nonneg(t.push(x), open, close) <==> (prefixes_nonneg(t, open, close) && depth(
            t.push(x),
            open,
            close,
        ) >= 0),
{
    let u = t.push(x);
    assert(u.take(u.len() as int) =~= u);
    if prefixes_nonneg(u, open, close) {
        assert forall|i: int| 0 <= i <= t.len() implies depth(#[trigger] t.take(i), open, close)
            >= 0 by {
            assert(u.take(i) =~= t.take(i));
        }
    }
    if prefixes_nonneg(t, open, close) && depth(u, open, close) >= 0 {
        assert forall|i: int| 0 <= i <= u.len() implies depth(#[trigger] u.take(i), open, close)
            >= 0 by {
            if i <= t.len() {
                assert(u.take(i) =~= t.take(i));
            }
        }
    }
}

/// Keeping only the brackets changes neither the depth nor whether some
/// prefix dips below zero, for parentheses or braces.
proof fn lemma_only_brackets_pair(t: Seq<char>, open: char, close: char)
    requires
        is_bracket(open),
        is_bracket(close),
    ensures
        depth(only_brackets(t), open, close) == depth(t, open, close),
        prefixes_nonneg(only_brackets(t), open, close) == prefixes_nonneg(t, open, close),
    decreases t.len(),
{
    if t.len() == 0 {
        assert(t.take(0) =~= t);
    } else {
        let t0 = t.drop_last();
        let x = t.last();
        lemma_only_brackets_pair(t0, open, close);
        assert(t0.push(x) =~= t);
        lemma_depth_push(t0, x, open, close);
        lemma_prefixes_push(t0, x, open, close);
        let f0 = only_brackets(t0);
        if is_bracket(x) {
            lemma_depth_push(f0, x, open, close);
            lemma_prefixes_push(f0, x, open, close);
        } else {
            assert(t0.take(t0.len() as int) =~= t0);
        }
    }
}

/// Whitespace is not a bracket: dropping it first changes no bracket.
proof fn lemma_only_brackets_non_blank(s: Seq<char>)
    ensures
        only_brackets(non_blank(s)) == only_brackets(s),
    decreases s.len(),
{
    if s.len() > 0 {
        lemma_only_brackets_non_blank(s.drop_last());
        let x = s.last();
        let n0 = non_blank(s.drop_last());
        if !unicode_whitespace(x) {
            assert(n0.push(x).drop_last() =~= n0);
        }
    }
}

/// Keeping only the brackets twice is keeping them once, and a text of
/// brackets has no whitespace.
proof fn lemma_only_brackets_stable(s: Seq<char>)
    ensures
        only_brackets(only_brackets(s)) == only_brackets(s),
        non_blank(only_brackets(s)) == only_brackets(s),
    decreases s.len(),
{
    if s.len() > 0 {
        lemma_only_brackets_stable(s.drop_last());
        let x = s.last();
        let f0 = only_brackets(s.drop_last());
        if is_bracket(x) {
            assert(f0.push(x).drop_last() =~= f0);
        }
    }
}

/// `parentesis_equilibrados` looks only at the parentheses and braces: its
/// answer for `s` is decided by `only_brackets(s)`, and it gives the same
/// answer for the text of those brackets alone.
pub proof fn lemma_only_brackets_matter(s: Seq<char>)
    ensures
        balanced(non_blank(s)) == balanced(only_brackets(s)),
        non_blank(only_brackets(s)) == only_brackets(s),
        only_brackets(only_brackets(s)) == only_brackets(s),
{
    let n = non_blank(s);
    lemma_only_brackets_pair(n, '(', ')');
    lemma_only_brackets_pair(n, '{', '}');
    lemma_only_brackets_non_blank(s);
    lemma_only_brackets_stable(s);
}

/// Two texts with the same parentheses and braces, in the same order, get the
/// same answer from `parentesis_equilibrados`.
pub proof fn lemma_same_brackets_same_answer(s1: Seq<char>, s2: Seq<char>)
    requires
        only_brackets(s1) == only_brackets(s2),
    ensures
        balanced(non_blank(s1)) == balanced(non_blank(s2)),
{
    lemma_only_brackets_matter(s1);
    lemma_only_brackets_matter(s2);
}

} // verus!
