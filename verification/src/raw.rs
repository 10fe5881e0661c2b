//! Raw multi-line header values: the ordered sequence of unparsed wire
//! lines stored under one header name.

use vstd::prelude::*;

verus! {

/// An ordered sequence of zero, one, or many raw wire lines held under one
/// header name. Wire order is preserved; each line is one occurrence of the
/// header on the wire.
#[derive(Debug, Clone)]
pub struct Raw {
    lines: Vec<Vec<u8>>,
}

impl View for Raw {
    type V = Seq<Seq<u8>>;

    closed spec fn view(&self) -> Seq<Seq<u8>> {
        self.lines.deep_view()
    }
}

impl Raw {
    /// A raw value with no lines.
    pub fn new() -> (r: Raw)
        ensures
            r@ == Seq::<Seq<u8>>::empty(),
    {
        let r = Raw { lines: Vec::new() };
        proof {
            assert(r@ =~~= Seq::<Seq<u8>>::empty());
        }
        r
    }

    /// A raw value holding exactly the given line.
    pub fn from_line(line: Vec<u8>) -> (r: Raw)
        ensures
            r@ == seq![line@],
    {
        let mut r = Raw::new();
        r.push(line);
        proof {
            assert(r@ =~~= seq![line@]);
        }
        r
    }

    /// The number of raw lines.
    pub fn len(&self) -> (n: usize)
        ensures
            n == self@.len(),
    {
        self.lines.len()
    }

    /// The line at position `i`, in original wire order.
    pub fn get(&self, i: usize) -> (r: &Vec<u8>)
        requires
            i < self@.len(),
        ensures
            r@ == self@[i as int],
    {
        &self.lines[i]
    }

    /// The single raw line, if exactly one exists; absent when there are
    /// zero lines or more than one.
    pub fn one(&self) -> (r: Option<&Vec<u8>>)
        ensures
            match r {
                Some(line) => self@.len() == 1 && line@ == self@[0],
                None => self@.len() != 1,
            },
    {
        if self.lines.len() == 1 {
            Some(&self.lines[0])
        } else {
            None
        }
    }

    /// Appends one more raw line at the end.
    pub fn push(&mut self, line: Vec<u8>)
        ensures
            final (self)@ == old(self)@.push(line@),
    {
        let ghost prior = self@;
        self.lines.push(line);
        proof {
            assert(self@ =~~= prior.push(line@));
        }
    }

    /// Discards all existing lines and stores exactly the one given.
    pub fn replace(&mut self, line: Vec<u8>)
        ensures
            final (self)@ == seq![line@],
    {
        self.lines.clear();
        self.lines.push(line);
        proof {
            assert(self@ =~~= seq![line@]);
        }
    }

    /// Decides whether two raw values hold the same lines in the same
    /// order.
    pub fn same_lines(&self, other: &Raw) -> (r: bool)
        ensures
            r == (self@ == other@),
    {
        if self.len() != other.len() {
            proof {
                assert(self@.len() != other@.len());
            }
            return false;
        }
        let n = self.len();
        let mut i: usize = 0;
        while i < n
            invariant
                i <= n,
                n == self@.len(),
                self@.len() == other@.len(),
                forall|j: int| 0 <= j < i ==> self@[j] == other@[j],
            decreases n - i,
        {
            if !crate::wire::bytes_eq(self.get(i).as_slice(), other.get(i).as_slice()) {
                proof {
                    assert(self@[i as int] != other@[i as int]);
                }
                return false;
            }
            i += 1;
        }
        proof {
            assert(self@ =~= other@);
        }
        true
    }

    /// All lines, in original wire order.
    pub fn lines(&self) -> (r: &Vec<Vec<u8>>)
        ensures
            r.deep_view() == self@,
    {
        &self.lines
    }
}

} // verus!
