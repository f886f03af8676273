//! A stack on a singly linked list of boxed nodes, with walks over its
//! values from the top down, and a test of bracket balance built on it.

use vstd::prelude::*;

verus! {

/// An owned link to the next cell.
pub type NodePointer<T> = Box<Node<T>>;

/// One cell of the list: a value and the rest of the list below it.
pub struct Node<T> {
    /// The value held in this cell.
    pub val: T,
    /// The cells below this one.
    pub next: Option<NodePointer<T>>,
}

impl<T> Node<T> {
    /// A cell holding `val` above the list `next`.
    pub fn new(val: T, next: Option<NodePointer<T>>) -> (n: Self)
        ensures
            n.val == val,
            n.next == next,
    {
        Node { val, next }
    }
}

/// The values of a list, first cell first.
pub open spec fn list_view<T>(l: Option<NodePointer<T>>) -> Seq<T>
    decreases l,
{
    match l {
        None => Seq::empty(),
        Some(node) => seq![node.val] + list_view(node.next),
    }
}

/// A last-in first-out stack.
pub struct Stack<T> {
    /// The top cell, if any.
    pub head: Option<NodePointer<T>>,
    /// The number of values on the stack.
    pub size: u32,
}

impl<T> View for Stack<T> {
    type V = Seq<T>;

    /// The values from the top down.
    open spec fn view(&self) -> Seq<T> {
        list_view(self.head)
    }
}

impl<T> Stack<T> {
    /// The recorded size is the number of values on the stack.
    pub open spec fn wf(&self) -> bool {
        self.size == list_view(self.head).len()
    }

    /// An empty stack.
    pub fn new() -> (s: Self)
        ensures
            s.wf(),
            s@ == Seq::<T>::empty(),
    {
        Stack { head: None, size: 0 }
    }

    /// Puts `val` on top.
    pub fn push(&mut self, val: T)
        requires
            old(self).wf(),
            old(self)@.len() < u32::MAX,
        ensures
            final(self).wf(),
            final(self)@ == seq![val] + old(self)@,
    {
        let new_node = Box::new(Node::new(val, self.head.take()));
        self.head = Some(new_node);
        self.size += 1;
    }

    /// Takes the top value, if any.
    pub fn pop(&mut self) -> (r: Option<T>)
        requires
            old(self).wf(),
        ensures
            final(self).wf(),
            match r {
                Some(v) => old(self)@.len() > 0 && v == old(self)@[0] && final(self)@ == old(
                    self,
                )@.drop_first(),
                None => old(self)@.len() == 0 && final(self)@ == old(self)@,
            },
    {
        match self.head.take() {
            Some(node) => {
                let node = *node;
                self.head = node.next;
                self.size -= 1;
                proof {
                    assert(old(self)@ == seq![node.val] + self@);
                    assert(self@ =~= old(self)@.drop_first());
                }
                Some(node.val)
            },
            None => None,
        }
    }

    /// The top value, if any.
    pub fn peek(&self) -> (r: Option<&T>)
        ensures
            match r {
                Some(v) => self@.len() > 0 && *v == self@[0],
                None => self@.len() == 0,
            },
    {
        match &self.head {
            Some(node) => Some(&node.val),
            None => None,
        }
    }

    /// Whether the stack holds no value.
    pub fn is_empty(&self) -> (r: bool)
        ensures
            r == (self@.len() == 0),
    {
        self.head.is_none()
    }

    /// A walk that takes the values off the stack, top first.
    pub fn into_iter(self) -> (it: IntoIter<T>)
        requires
            self.wf(),
        ensures
            it.wf(),
            it@ == self@,
    {
        IntoIter(self)
    }

    /// A walk over shared references to the values, top first.
    pub fn iter(&self) -> (it: Iter<'_, T>)
        ensures
            it@ == self@,
    {
        Iter { current_node: self.head.as_ref() }
    }

    /// A walk over mutable references to the values, top first.
    pub fn iter_mut(&mut self) -> (it: IterMut<'_, T>)
        ensures
            it@ == old(self)@,
    {
        IterMut { current_node: self.head.as_mut() }
    }
}

/// Takes the values off a stack, top first.
pub struct IntoIter<T>(Stack<T>);

impl<T> View for IntoIter<T> {
    type V = Seq<T>;

    /// The values still to come.
    closed spec fn view(&self) -> Seq<T> {
        self.0@
    }
}

impl<T> IntoIter<T> {
    /// The stack underneath is well formed.
    pub closed spec fn wf(&self) -> bool {
        self.0.wf()
    }

    /// The next value, if any.
    pub fn next(&mut self) -> (r: Option<T>)
        requires
            old(self).wf(),
        ensures
            final(self).wf(),
            match r {
                Some(v) => old(self)@.len() > 0 && v == old(self)@[0] && final(self)@ == old(
                    self,
                )@.drop_first(),
                None => old(self)@.len() == 0 && final(self)@ == old(self)@,
            },
    {
        self.0.pop()
    }
}

/// Walks shared references to the values of a stack, top first.
pub struct Iter<'a, T> {
    current_node: Option<&'a NodePointer<T>>,
}

impl<'a, T> View for Iter<'a, T> {
    type V = Seq<T>;

    /// The values still to come.
    closed spec fn view(&self) -> Seq<T> {
        match self.current_node {
            Some(node) => seq![node.val] + list_view(node.next),
            None => Seq::empty(),
        }
    }
}

impl<'a, T> Iter<'a, T> {
    /// A reference to the next value, if any.
    pub fn next(&mut self) -> (r: Option<&'a T>)
        ensures
            match r {
                Some(v) => old(self)@.len() > 0 && *v == old(self)@[0] && final(self)@ == old(
                    self,
                )@.drop_first(),
                None => old(self)@.len() == 0 && final(self)@ == old(self)@,
            },
    {
        match self.current_node {
            Some(node) => {
                self.current_node = node.next.as_ref();
                proof {
                    assert(final(self)@ =~= old(self)@.drop_first()) by {
                        assert(self@ == list_view(node.next));
                    }
                }
                Some(&node.val)
            },
            None => None,
        }
    }
}

/// Walks mutable references to the values of a stack, top first.
pub struct IterMut<'a, T> {
    current_node: Option<&'a mut NodePointer<T>>,
}

impl<'a, T> View for IterMut<'a, T> {
    type V = Seq<T>;

    /// The values still to come, as they stand now.
    closed spec fn view(&self) -> Seq<T> {
        match self.current_node {
            Some(node) => seq![node.val] + list_view(node.next),
            None => Seq::empty(),
        }
    }
}

impl<'a, T> IterMut<'a, T> {
    /// A mutable reference to the next value, if any.
    pub fn next(&mut self) -> (r: Option<&'a mut T>)
        ensures
            match r {
                Some(v) => old(self)@.len() > 0 && *v == old(self)@[0] && final(self)@ == old(
                    self,
                )@.drop_first(),
                None => old(self)@.len() == 0 && final(self)@ == old(self)@,
            },
    {
        match self.current_node.take() {
            Some(node) => {
                self.current_node = node.next.as_mut();
                Some(&mut node.val)
            },
            None => None,
        }
    }
}

/// A stack holding 1 to 6, pushed in that order, so 6 is on top.
pub fn init_stack() -> (stack: Stack<i32>)
    ensures
        stack.wf(),
        stack@ == seq![6i32, 5, 4, 3, 2, 1],
{
    let mut stack = Stack::<i32>::new();

    stack.push(1);
    stack.push(2);
    stack.push(3);
    stack.push(4);
    stack.push(5);
    stack.push(6);

    assert(stack@ =~= seq![6i32, 5, 4, 3, 2, 1]);
    stack
}

/// The bracket that closes `open`, if `open` is an opening bracket.
pub open spec fn closing_pair(open: char) -> Option<char> {
    if open == '(' {
        Some(')')
    } else if open == '[' {
        Some(']')
    } else if open == '{' {
        Some('}')
    } else {
        None
    }
}

/// One of the three closing brackets.
pub open spec fn is_closing(c: char) -> bool {
    c == ')' || c == ']' || c == '}'
}

/// The characters of `s` that are still waiting for their closing bracket,
/// the latest first; `None` once a closing bracket met no matching opener.
pub open spec fn pending(s: Seq<char>) -> Option<Seq<char>>
    decreases s.len(),
{
    if s.len() == 0 {
        Some(Seq::empty())
    } else {
        match pending(s.drop_last()) {
            None => None,
            Some(open) => {
                let c = s.last();
                if !is_closing(c) {
                    Some(seq![c] + open)
                } else if open.len() > 0 && closing_pair(open[0]) == Some(c) {
                    Some(open.drop_first())
                } else {
                    None
                }
            },
        }
    }
}

/// Every closing bracket of `s` closes the latest opener still open, and
/// nothing is left open at the end.
pub open spec fn balanced(s: Seq<char>) -> bool {
    pending(s) == Some(Seq::<char>::empty())
}

fn closing_of(open: char) -> (r: Option<char>)
    ensures
        r == closing_pair(open),
{
    match open {
        '(' => Some(')'),
        '[' => Some(']'),
        '{' => Some('}'),
        _ => None,
    }
}

/// Whether the brackets in `brackets` are balanced and properly nested.
/// Characters other than closing brackets wait on the stack like openers.
pub fn brackets_are_valid(brackets: &str) -> (r: bool)
    requires
        brackets@.len() < u32::MAX,
    ensures
        r == balanced(brackets@),
{
    let mut stack = Stack::<char>::new();
    for bracket in it: brackets.chars()
        invariant
            it.seq() == brackets@,
            brackets@.len() < u32::MAX,
            stack.wf(),
            stack@.len() <= it.index(),
            pending(brackets@.take(it.index() as int)) == Some(stack@),
    {
        proof {
            assert(brackets@.take(it.index() + 1).drop_last() =~= brackets@.take(it.index() as int));
        }
        if bracket == ')' || bracket == ']' || bracket == '}' {
            let matched = match stack.peek() {
                Some(head) => closing_of(*head) == Some(bracket),
                None => false,
            };
            if matched {
                stack.pop();
            } else {
                proof {
                    lemma_pending_stays_none(brackets@, it.index() + 1);
                }
                return false;
            }
        } else {
            stack.push(bracket);
        }
    }
    assert(brackets@.take(brackets@.len() as int) =~= brackets@);
    stack.is_empty()
}

proof fn lemma_pending_stays_none(s: Seq<char>, k: int)
    requires
        0 <= k <= s.len(),
        pending(s.take(k)) is None,
    ensures
        pending(s) is None,
    decreases s.len() - k,
{
    if k < s.len() {
        assert(s.take(k + 1).drop_last() =~= s.take(k));
        lemma_pending_stays_none(s, k + 1);
    } else {
        assert(s.take(k) =~= s);
    }
}

} // verus!
