use vstd::prelude::*;

verus! {

/// An account identity: 160 bits held as a high 32-bit part and a low 128-bit part.
#[derive(Clone, Copy, Debug, PartialEq, Eq, Structural)]
pub struct Identity {
    pub high: u32,
    pub low: u128,
}

impl Identity {
    pub open spec fn spec_is_zero(self) -> bool {
        self.high == 0 && self.low == 0
    }

    pub fn new(high: u32, low: u128) -> (r: Identity)
        ensures
            r.high == high,
            r.low == low,
    {
        Identity { high, low }
    }

    /// The zero identity never names an account.
    pub fn is_zero(&self) -> (r: bool)
        ensures
            r == self.spec_is_zero(),
    {
        self.high == 0 && self.low == 0
    }
}

/// Where `x` stands in `v`, if anywhere.
pub fn position(v: &Vec<Identity>, x: Identity) -> (r: Option<usize>)
    ensures
        match r {
            Some(i) => i < v@.len() && v@[i as int] == x,
            None => !v@.contains(x),
        },
{
    let mut i: usize = 0;
    while i < v.len()
        invariant
            i <= v@.len(),
            forall|j: int| 0 <= j < i ==> v@[j] != x,
        decreases v@.len() - i,
    {
        if v[i] == x {
            return Some(i);
        }
        i = i + 1;
    }
    None
}

/// In a sequence without repeats, the element at `i` is found at `i`.
pub proof fn lemma_index_of_unique(s: Seq<Identity>, i: int)
    requires
        s.no_duplicates(),
        0 <= i < s.len(),
    ensures
        s.index_of(s[i]) == i,
{
    assert(s.contains(s[i]));
    let j = s.index_of(s[i]);
    assert(0 <= j < s.len() && s[j] == s[i]);
}

} // verus!
