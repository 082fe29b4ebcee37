//! Field elements and the four-element words that serve as digests.

use vstd::prelude::*;

verus! {

/// Order of the field: the elements are the integers below it.
pub const MODULUS: u64 = 0xffff_ffff_0000_0001;

/// A field element, held by its canonical representative.
#[derive(Clone, Copy, PartialEq, Eq, Structural, Debug)]
pub struct Felt {
    pub value: u64,
}

impl Felt {
    /// A field element is canonical when its representative lies below the field order.
    pub open spec fn wf(self) -> bool {
        self.value < MODULUS
    }

    /// The element with the given canonical representative.
    pub fn new_unchecked(value: u64) -> (felt: Felt)
        requires
            value < MODULUS,
        ensures
            felt.value == value,
            felt.wf(),
    {
        Felt { value }
    }

    /// The element of a 32-bit integer.
    pub fn from_u32(value: u32) -> (felt: Felt)
        ensures
            felt.value == value,
            felt.wf(),
    {
        Felt { value: value as u64 }
    }

    /// The additive identity.
    pub fn zero() -> (felt: Felt)
        ensures
            felt.value == 0,
            felt.wf(),
    {
        Felt { value: 0 }
    }

    /// The canonical representative.
    pub fn as_canonical_u64(&self) -> (value: u64)
        ensures
            value == self.value,
    {
        self.value
    }
}

/// Four field elements.
#[derive(Clone, Copy, PartialEq, Eq, Structural, Debug)]
pub struct Word {
    pub w0: Felt,
    pub w1: Felt,
    pub w2: Felt,
    pub w3: Felt,
}

impl Word {
    /// The canonical representatives, first element first.
    pub open spec fn view(self) -> Seq<u64> {
        seq![self.w0.value, self.w1.value, self.w2.value, self.w3.value]
    }

    /// All four elements are canonical.
    pub open spec fn wf(self) -> bool {
        self.w0.wf() && self.w1.wf() && self.w2.wf() && self.w3.wf()
    }

    /// The word whose representatives are the first four of `s`.
    pub open spec fn of(s: Seq<u64>) -> Word {
        Word {
            w0: Felt { value: s[0] },
            w1: Felt { value: s[1] },
            w2: Felt { value: s[2] },
            w3: Felt { value: s[3] },
        }
    }

    /// The word of four zeros.
    pub open spec fn zero_spec() -> Word {
        Word::of(seq![0u64, 0u64, 0u64, 0u64])
    }

    /// Words are ordered by their last element first.
    pub open spec fn lt_spec(self, other: Word) -> bool {
        if self.w3.value != other.w3.value {
            self.w3.value < other.w3.value
        } else if self.w2.value != other.w2.value {
            self.w2.value < other.w2.value
        } else if self.w1.value != other.w1.value {
            self.w1.value < other.w1.value
        } else {
            self.w0.value < other.w0.value
        }
    }

    pub fn new(elements: [Felt; 4]) -> (word: Word)
        ensures
            word.w0 == elements@[0],
            word.w1 == elements@[1],
            word.w2 == elements@[2],
            word.w3 == elements@[3],
    {
        Word { w0: elements[0], w1: elements[1], w2: elements[2], w3: elements[3] }
    }

    /// Whether `self` comes before `other` in the order of words.
    pub fn lt(&self, other: &Word) -> (res: bool)
        ensures
            res == self.lt_spec(*other),
    {
        if self.w3.value != other.w3.value {
            self.w3.value < other.w3.value
        } else if self.w2.value != other.w2.value {
            self.w2.value < other.w2.value
        } else if self.w1.value != other.w1.value {
            self.w1.value < other.w1.value
        } else {
            self.w0.value < other.w0.value
        }
    }

    /// The four elements, first element first.
    pub fn as_elements(&self) -> (elements: [Felt; 4])
        ensures
            elements@ == seq![self.w0, self.w1, self.w2, self.w3],
    {
        let elements = [self.w0, self.w1, self.w2, self.w3];
        assert(elements@ =~= seq![self.w0, self.w1, self.w2, self.w3]);
        elements
    }
}

impl Default for Word {
    fn default() -> (word: Word)
        ensures
            word == Word::zero_spec(),
            word.wf(),
    {
        Word { w0: Felt::zero(), w1: Felt::zero(), w2: Felt::zero(), w3: Felt::zero() }
    }
}

/// The order of words is strict and total.
pub proof fn law_word_order(a: Word, b: Word, c: Word)
    ensures
        !a.lt_spec(a),
        a.lt_spec(b) && b.lt_spec(c) ==> a.lt_spec(c),
        a == b || a.lt_spec(b) || b.lt_spec(a),
        !(a.lt_spec(b) && b.lt_spec(a)),
{
}

impl Word {
    /// A word as one number, the last element highest.
    pub open spec fn number(self) -> nat {
        self.w0.value as nat + 0x1_0000_0000_0000_0000 * (self.w1.value as nat
            + 0x1_0000_0000_0000_0000 * (self.w2.value as nat + 0x1_0000_0000_0000_0000
            * self.w3.value as nat))
    }
}

/// Words are ordered as numbers whose last element is the highest.
pub proof fn law_words_are_ordered_as_numbers(a: Word, b: Word)
    ensures
        a.lt_spec(b) <==> a.number() < b.number(),
{
}

} // verus!
