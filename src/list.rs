use vstd::prelude::*;
use vstd::std_specs::cmp::PartialEqSpec;
use crate::text::push_text;
use std::fmt::Display;
use vstd::string::to_string_from_display_ensures;

verus! {

/// A singly linked list: either the empty terminator or a value followed by
/// the rest of the list.
#[derive(Debug)]
pub enum ListNode<T> {
    Nil,
    Cons(T, Box<ListNode<T>>),
}

impl<T> View for ListNode<T> {
    type V = Seq<T>;

    /// The values of the list, from the head on.
    open spec fn view(&self) -> Seq<T>
        decreases self,
    {
        match self {
            ListNode::Nil => Seq::empty(),
            ListNode::Cons(v, next) => seq![*v] + (**next)@,
        }
    }
}

/// The list holding the values of `s`, in order.
pub open spec fn list_of<T>(s: Seq<T>) -> ListNode<T>
    decreases s.len(),
{
    if s.len() == 0 {
        ListNode::Nil
    } else {
        ListNode::Cons(s[0], Box::new(list_of(s.drop_first())))
    }
}

/// A list is determined by its values.
pub proof fn lemma_list_of_view<T>(l: ListNode<T>)
    ensures
        list_of(l@) == l,
    decreases l,
{
    if let ListNode::Cons(v, next) = l {
        lemma_list_of_view(*next);
        assert(l@.drop_first() =~= (*next)@);
    }
}

impl<T> ListNode<T> {
    /// Moves the list out, leaving an empty list in its place.
    fn take(&mut self) -> (l: ListNode<T>)
        ensures
            l == *old(self),
            *final(self) == ListNode::<T>::Nil,
    {
        let mut l = ListNode::Nil;
        std::mem::swap(self, &mut l);
        l
    }

    /// Deletes the head node; an empty list stays empty.
    pub fn delete(&mut self)
        ensures
            *final(self) == match *old(self) {
                ListNode::Nil => ListNode::Nil,
                ListNode::Cons(_, next) => *next,
            },
            final(self)@ == if old(self)@.len() == 0 {
                old(self)@
            } else {
                old(self)@.drop_first()
            },
    {
        let as_owned: ListNode<T> = self.take();
        match as_owned {
            ListNode::Nil => {},
            ListNode::Cons(_, next) => {
                *self = *next;
                proof {
                    assert(old(self)@.drop_first() =~= (*next)@);
                }
            },
        }
    }

    /// Creates an empty list.
    pub fn new() -> (l: Self)
        ensures
            l == ListNode::<T>::Nil,
    {
        ListNode::Nil
    }

    /// Appends a node holding `value` at the end of the list and returns a
    /// reference to that new node.
    pub fn insert(&mut self, value: T) -> (r: &mut Self)
        ensures
            *r == ListNode::Cons(value, Box::new(ListNode::Nil)),
            final(self)@ == old(self)@ + final(r)@,
        decreases *old(self),
    {
        match self {
            ListNode::Nil => {
                *self = ListNode::Cons(value, Box::new(ListNode::Nil));
                self
            },
            ListNode::Cons(_, next) => next.insert(value),
        }
    }

    /// Reverses the list in place.
    pub fn reverse(&mut self)
        ensures
            final(self)@ == old(self)@.reverse(),
    {
        let ghost s = self@;
        let mut prev = ListNode::Nil;
        let mut current = self.take();
        let ghost mut k: int = 0;
        proof {
            assert(prev@ =~= s.take(0).reverse());
            assert(current@ =~= s.skip(0));
        }
        loop
            invariant_except_break
                0 <= k <= s.len(),
                prev@ == s.take(k).reverse(),
                current@ == s.skip(k),
            ensures
                prev@ == s.reverse(),
            decreases s.len() - k,
        {
            let ghost cur = current;
            match current {
                ListNode::Cons(value, next) => {
                    proof {
                        assert(cur@ == seq![value] + (*next)@);
                        assert(s.skip(k).len() == s.len() - k);
                        assert(k < s.len());
                        assert(s.skip(k)[0] == s[k]);
                        assert(s[k] == value);
                        assert(cur@.drop_first() =~= (*next)@);
                        assert(s.skip(k + 1) =~= s.skip(k).drop_first());
                        assert(seq![value] + prev@ =~= s.take(k + 1).reverse());
                        k = k + 1;
                    }
                    current = *next;
                    prev = ListNode::Cons(value, Box::new(prev));
                },
                ListNode::Nil => {
                    proof {
                        assert(cur@.len() == 0);
                        assert(s.take(k) =~= s);
                    }
                    break;
                },
            }
        }
        *self = prev;
    }

    /// The values of the list in order, consuming it.
    pub fn into_vec(self) -> (v: Vec<T>)
        ensures
            v@ == self@,
    {
        let ghost s = self@;
        let mut list = self;
        let mut vec = Vec::new();
        loop
            invariant_except_break
                s == vec@ + list@,
            ensures
                s == vec@,
            decreases list@.len(),
        {
            match list {
                ListNode::Cons(value, next) => {
                    vec.push(value);
                    list = *next;
                    proof {
                        assert(s =~= vec@ + list@);
                    }
                },
                ListNode::Nil => {
                    proof {
                        assert(s =~= vec@);
                    }
                    break;
                },
            }
        }
        vec
    }

    /// Builds a list holding the values of `vec`, in order.
    pub fn from_vec(vec: Vec<T>) -> (l: Self)
        ensures
            l@ == vec@,
    {
        let ghost s = vec@;
        let mut rest = vec;
        let mut list = ListNode::Nil;
        proof {
            assert(list@ =~= s.skip(rest.len() as int));
        }
        while rest.len() > 0
            invariant
                rest@ == s.take(rest.len() as int),
                rest.len() <= s.len(),
                list@ == s.skip(rest.len() as int),
            decreases rest.len(),
        {
            let value = rest.pop().unwrap();
            proof {
                assert(s[rest.len() as int] == value);
                assert(rest@ =~= s.take(rest.len() as int));
                assert(seq![value] + list@ =~= s.skip(rest.len() as int));
            }
            list = ListNode::Cons(value, Box::new(list));
        }
        proof {
            assert(s.skip(0) =~= s);
        }
        list
    }
}

/// `v` is displayed as the text `t`.
pub open spec fn displays_as<T: Display>(v: T, t: Seq<char>) -> bool {
    exists|s: String| to_string_from_display_ensures::<T>(&v, s) && s@ == t
}

/// The texts of `items`, each followed by an arrow, and then `Nil`.
pub open spec fn arrow_chain(items: Seq<Seq<char>>) -> Seq<char>
    decreases items.len(),
{
    if items.len() == 0 {
        seq!['N', 'i', 'l']
    } else {
        items[0] + seq![' ', '-', '>', ' '] + arrow_chain(items.drop_first())
    }
}

/// The texts of `items`, each followed by an arrow.
pub open spec fn arrow_prefix(items: Seq<Seq<char>>) -> Seq<char>
    decreases items.len(),
{
    if items.len() == 0 {
        Seq::empty()
    } else {
        arrow_prefix(items.drop_last()) + items.last() + seq![' ', '-', '>', ' ']
    }
}

proof fn lemma_arrow_chain(items: Seq<Seq<char>>)
    ensures
        arrow_chain(items) == arrow_prefix(items) + seq!['N', 'i', 'l'],
    decreases items.len(),
{
    if items.len() > 0 {
        let rest = items.drop_first();
        lemma_arrow_chain(rest);
        lemma_arrow_prefix_front(items);
    } else {
        assert(arrow_prefix(items) + seq!['N', 'i', 'l'] =~= seq!['N', 'i', 'l']);
    }
}

proof fn lemma_arrow_prefix_front(items: Seq<Seq<char>>)
    requires
        items.len() > 0,
    ensures
        arrow_prefix(items) == items[0] + seq![' ', '-', '>', ' '] + arrow_prefix(
            items.drop_first(),
        ),
    decreases items.len(),
{
    if items.len() > 1 {
        lemma_arrow_prefix_front(items.drop_last());
        assert(items.drop_last().drop_first() =~= items.drop_first().drop_last());
        assert(items.drop_first().last() == items.last());
        assert(arrow_prefix(items) =~= items[0] + seq![' ', '-', '>', ' '] + arrow_prefix(
            items.drop_first(),
        ));
    } else {
        assert(items.drop_last() =~= Seq::<Seq<char>>::empty());
        assert(items.drop_first() =~= Seq::<Seq<char>>::empty());
        assert(arrow_prefix(items) =~= items[0] + seq![' ', '-', '>', ' '] + arrow_prefix(
            items.drop_first(),
        ));
    }
}

impl<T: Display> ListNode<T> {
    /// Renders the list as its values joined by arrows and ending in `Nil`,
    /// such as `1 -> 2 -> Nil`.
    pub fn to_string(&self) -> (s: String)
        ensures
            exists|texts: Seq<Seq<char>>|
                {
                    &&& texts.len() == self@.len()
                    &&& forall|i: int|
                        0 <= i < texts.len() ==> displays_as(self@[i], #[trigger] texts[i])
                    &&& s@ == arrow_chain(texts)
                },
    {
        let mut out = String::new();
        let mut cur: &ListNode<T> = self;
        let ghost mut texts: Seq<Seq<char>> = Seq::empty();
        proof {
            assert(self@.skip(0) =~= self@);
        }
        loop
            invariant_except_break
                texts.len() <= self@.len(),
                cur@ == self@.skip(texts.len() as int),
                forall|i: int| 0 <= i < texts.len() ==> displays_as(self@[i], #[trigger] texts[i]),
                out@ == arrow_prefix(texts),
            ensures
                texts.len() == self@.len(),
                forall|i: int| 0 <= i < texts.len() ==> displays_as(self@[i], #[trigger] texts[i]),
                out@ == arrow_prefix(texts),
            decreases self@.len() - texts.len(),
        {
            match cur {
                ListNode::Cons(value, next) => {
                    let text = value.to_string();
                    push_text(&mut out, text.as_str());
                    push_text(&mut out, " -> ");
                    proof {
                        let k = texts.len() as int;
                        assert(cur@ == seq![*value] + (**next)@);
                        assert(self@.skip(k).len() == self@.len() - k);
                        assert(self@.skip(k)[0] == self@[k]);
                        assert(displays_as(self@[k], text@));
                        assert(self@.skip(k + 1) =~= self@.skip(k).drop_first());
                        reveal_strlit(" -> ");
                        let before = texts;
                        texts = texts.push(text@);
                        assert(texts.drop_last() =~= before);
                        assert(out@ =~= arrow_prefix(texts));
                    }
                    cur = next;
                },
                ListNode::Nil => {
                    proof {
                        assert(self@.skip(texts.len() as int).len() == self@.len() - texts.len());
                    }
                    break;
                },
            }
        }
        push_text(&mut out, "Nil");
        proof {
            reveal_strlit("Nil");
            lemma_arrow_chain(texts);
        }
        out
    }
}

/// Both lists hold values that are pairwise equal under `T`'s `==`, and are
/// equally long.
pub open spec fn lists_equal<T: PartialEq>(a: ListNode<T>, b: ListNode<T>) -> bool
    decreases a,
{
    match (a, b) {
        (ListNode::Nil, ListNode::Nil) => true,
        (ListNode::Cons(j, next_j), ListNode::Cons(k, next_k)) => j.eq_spec(&k) && lists_equal(
            *next_j,
            *next_k,
        ),
        _ => false,
    }
}

impl<T: PartialEq> PartialEq for ListNode<T> {
    fn eq(&self, other: &Self) -> (r: bool)
        decreases self,
    {
        match (self, other) {
            (ListNode::Nil, ListNode::Nil) => true,
            (ListNode::Cons(j, next_j), ListNode::Cons(k, next_k)) => j == k && (**next_j).eq(
                &**next_k,
            ),
            _ => false,
        }
    }
}

impl<T: PartialEq> vstd::std_specs::cmp::PartialEqSpecImpl for ListNode<T> {
    open spec fn obeys_eq_spec() -> bool {
        T::obeys_eq_spec()
    }

    open spec fn eq_spec(&self, other: &Self) -> bool {
        lists_equal(*self, *other)
    }
}

impl<T: Eq> Eq for ListNode<T> {
}


impl<T> Default for ListNode<T> {
    fn default() -> (l: Self)
        ensures
            l == ListNode::<T>::Nil,
    {
        ListNode::Nil
    }
}

impl<T> From<Vec<T>> for ListNode<T> {
    fn from(vec: Vec<T>) -> (l: Self) {
        let l = ListNode::from_vec(vec);
        proof {
            lemma_list_of_view(l);
        }
        l
    }
}

impl<T> vstd::std_specs::convert::FromSpecImpl<Vec<T>> for ListNode<T> {
    open spec fn obeys_from_spec() -> bool {
        true
    }

    open spec fn from_spec(v: Vec<T>) -> Self {
        list_of(v@)
    }
}

} // verus!
