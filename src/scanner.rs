//! A forward-only cursor over a character buffer.

use vstd::prelude::*;

use crate::text::copy_range;

verus! {

/// The position of the first `c` in `s`, or `s.len()` where there is none.
pub open spec fn index_of(s: Seq<char>, c: char) -> int
    decreases s.len(),
{
    if s.len() == 0 {
        0
    } else if s[0] == c {
        0
    } else {
        1 + index_of(s.drop_first(), c)
    }
}

/// What precedes the first `c` in `s` (all of `s` where there is none).
pub open spec fn before(s: Seq<char>, c: char) -> Seq<char> {
    s.take(index_of(s, c))
}

/// What follows the first `c` in `s` (nothing where there is none).
pub open spec fn after(s: Seq<char>, c: char) -> Seq<char> {
    if index_of(s, c) < s.len() {
        s.skip(index_of(s, c) + 1)
    } else {
        Seq::empty()
    }
}

/// `index_of` is the first position that holds `c`, or the length.
pub proof fn lemma_index_of(s: Seq<char>, c: char, k: int)
    requires
        0 <= k <= s.len(),
        forall|j: int| 0 <= j < k ==> s[j] != c,
        k == s.len() || s[k] == c,
    ensures
        index_of(s, c) == k,
    decreases s.len(),
{
    if s.len() > 0 && s[0] != c {
        lemma_index_of(s.drop_first(), c, k - 1);
    }
}

/// The bounds of `index_of`.
pub proof fn lemma_index_of_bounds(s: Seq<char>, c: char)
    ensures
        0 <= index_of(s, c) <= s.len(),
        index_of(s, c) < s.len() ==> s[index_of(s, c)] == c,
        forall|j: int| 0 <= j < index_of(s, c) ==> s[j] != c,
    decreases s.len(),
{
    if s.len() > 0 && s[0] != c {
        lemma_index_of_bounds(s.drop_first(), c);
        assert forall|j: int| 0 <= j < index_of(s, c) implies s[j] != c by {
            if j > 0 {
                assert(s[j] == s.drop_first()[j - 1]);
            }
        }
    }
}

/// A cursor over a buffer of characters; its view is what remains to be read.
pub struct XMLInStream {
    chars: Vec<char>,
    pos: usize,
}

impl View for XMLInStream {
    type V = Seq<char>;

    closed spec fn view(&self) -> Seq<char> {
        self.chars@.subrange(self.pos as int, self.chars@.len() as int)
    }
}

impl XMLInStream {
    #[verifier::type_invariant]
    closed spec fn inv(self) -> bool {
        self.pos <= self.chars@.len()
    }

    /// A cursor at the start of `chars`.
    pub fn new(chars: Vec<char>) -> (r: Self)
        ensures
            r@ == chars@,
    {
        let r = XMLInStream { chars, pos: 0 };
        assert(r@ =~= r.chars@);
        r
    }

    /// The position of the first `ch` from the cursor on, or the end.
    fn find(&self, ch: char) -> (k: usize)
        ensures
            self.pos + index_of(self@, ch) == k,
            self.pos <= k <= self.chars@.len(),
    {
        proof {
            use_type_invariant(self);
        }
        let mut k: usize = self.pos;
        while k < self.chars.len() && self.chars[k] != ch
            invariant
                self.pos <= k <= self.chars@.len(),
                forall|j: int| self.pos <= j < k ==> self.chars@[j] != ch,
            decreases self.chars@.len() - k,
        {
            k = k + 1;
        }
        proof {
            lemma_index_of(self@, ch, k - self.pos);
        }
        k
    }

    /// Moves past the next `ch`, or to the end where there is none.
    pub fn skip_to(&mut self, ch: char)
        ensures
            final(self)@ == after(old(self)@, ch),
    {
        proof {
            use_type_invariant(&*self);
        }
        let k = self.find(ch);
        proof {
            lemma_index_of_bounds(old(self)@, ch);
        }
        if k < self.chars.len() {
            self.pos = k + 1;
        } else {
            self.pos = k;
        }
        assert(self@ =~= after(old(self)@, ch));
    }

    /// Reads up to the next `ch` and moves past it; at the end, reads all that remains.
    pub fn read_until(&mut self, ch: char) -> (r: Vec<char>)
        ensures
            r@ == before(old(self)@, ch),
            final(self)@ == after(old(self)@, ch),
    {
        proof {
            use_type_invariant(&*self);
        }
        let k = self.find(ch);
        proof {
            lemma_index_of_bounds(old(self)@, ch);
        }
        let r = copy_range(&self.chars, self.pos, k);
        assert(r@ =~= before(old(self)@, ch));
        if k < self.chars.len() {
            self.pos = k + 1;
        } else {
            self.pos = k;
        }
        assert(self@ =~= after(old(self)@, ch));
        r
    }

    /// All that remains, without moving the cursor.
    pub fn read_to_end(&self) -> (r: Vec<char>)
        ensures
            r@ == self@,
    {
        proof {
            use_type_invariant(self);
        }
        copy_range(&self.chars, self.pos, self.chars.len())
    }

    /// Whether nothing remains.
    pub fn is_done(&self) -> (r: bool)
        ensures
            r == (self@.len() == 0),
    {
        proof {
            use_type_invariant(self);
        }
        self.pos == self.chars.len()
    }
}

} // verus!
