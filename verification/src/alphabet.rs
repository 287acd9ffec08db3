//! The two symbol tables, supplied fully built: a main table of exactly 2048
//! symbols carrying 11 bits each, and a tail table of at least 8 symbols for
//! a trailing remainder. Each table is kept as a list indexed by the value a
//! symbol stands for; the constructor checks the shape the codec relies on:
//! the sizes, and that no symbol text occurs twice anywhere.

use vstd::prelude::*;
use crate::token::Token;

verus! {

/// The symbol texts of a table, by index.
pub open spec fn sym_views(v: Seq<String>) -> Seq<Seq<char>> {
    v.map_values(|s: String| s@)
}

/// No symbol text occurs twice.
pub open spec fn distinct_syms(ss: Seq<Seq<char>>) -> bool {
    forall|i: int, j: int| 0 <= i < j < ss.len() ==> ss[i] != ss[j]
}

/// The first index holding the given text, if any. Under `distinct_syms`
/// it is the only one.
pub open spec fn spec_find(ss: Seq<Seq<char>>, g: Seq<char>) -> Option<int> {
    if exists|i: int| 0 <= i < ss.len() && ss[i] == g {
        Some(choose|i: int| 0 <= i < ss.len() && ss[i] == g)
    } else {
        None
    }
}

/// In a distinct table, looking up the text at an index finds that index.
pub proof fn lemma_distinct_find(ss: Seq<Seq<char>>, i: int)
    requires
        distinct_syms(ss),
        0 <= i < ss.len(),
    ensures
        spec_find(ss, ss[i]) == Some(i),
{
    assert(0 <= i < ss.len() && ss[i] == ss[i]);
    let j = choose|j: int| 0 <= j < ss.len() && ss[j] == ss[i];
    if j != i {
        if j < i {
            assert(ss[j] != ss[i]);
        } else {
            assert(ss[i] != ss[j]);
        }
    }
}

/// The alphabet: both tables, read-only once built.
pub struct Alphabet {
    main: Vec<String>,
    tail: Vec<String>,
}

impl Alphabet {
    /// The main symbols, as character sequences, by index.
    pub closed spec fn main_syms(self) -> Seq<Seq<char>> {
        sym_views(self.main@)
    }

    /// The tail symbols, as character sequences, by index.
    pub closed spec fn tail_syms(self) -> Seq<Seq<char>> {
        sym_views(self.tail@)
    }

    /// The shape the codec relies on: 2048 main symbols, at least 8 tail
    /// symbols whose indices fit the index type, and no symbol text shared
    /// between any two places of either table.
    pub open spec fn wf(self) -> bool {
        &&& self.main_syms().len() == 2048
        &&& self.tail_syms().len() >= 8
        &&& self.tail_syms().len() <= 0xffff
        &&& distinct_syms(self.main_syms() + self.tail_syms())
    }

    /// Builds an alphabet after checking the shape; returns `None` exactly
    /// when the supplied tables do not have it.
    pub fn new(main: Vec<String>, tail: Vec<String>) -> (r: Option<Alphabet>)
        ensures
            match r {
                Some(a) => {
                    &&& a.wf()
                    &&& a.main_syms() == sym_views(main@)
                    &&& a.tail_syms() == sym_views(tail@)
                },
                None => !(main@.len() == 2048 && tail@.len() >= 8 && tail@.len() <= 0xffff
                    && distinct_syms(sym_views(main@) + sym_views(tail@))),
            },
    {
        if main.len() != 2048 || tail.len() < 8 || tail.len() > 0xffff {
            return None;
        }
        if !symbols_distinct(&main, &tail) {
            return None;
        }
        Some(Alphabet { main, tail })
    }

    /// How many symbols the main table holds.
    pub fn main_len(&self) -> (r: usize)
        ensures
            r == self.main_syms().len(),
    {
        self.main.len()
    }

    /// How many symbols the tail table holds.
    pub fn tail_len(&self) -> (r: usize)
        ensures
            r == self.tail_syms().len(),
    {
        self.tail.len()
    }

    /// The symbol at a main-table index.
    pub fn main_symbol(&self, i: u16) -> (r: &String)
        requires
            (i as int) < self.main_syms().len(),
        ensures
            r@ == self.main_syms()[i as int],
    {
        &self.main[i as usize]
    }

    /// The symbol at a tail-table index.
    pub fn tail_symbol(&self, i: u16) -> (r: &String)
        requires
            (i as int) < self.tail_syms().len(),
        ensures
            r@ == self.tail_syms()[i as int],
    {
        &self.tail[i as usize]
    }

    /// The main-table index of a symbol text, if present.
    pub fn main_index(&self, g: &String) -> (r: Option<u16>)
        requires
            self.wf(),
        ensures
            match r {
                Some(i) => (i as int) < self.main_syms().len() && self.main_syms()[i as int]
                    == g@,
                None => forall|i: int|
                    0 <= i < self.main_syms().len() ==> self.main_syms()[i] != g@,
            },
    {
        let mut i: usize = 0;
        while i < self.main.len()
            invariant
                self.wf(),
                i <= self.main_syms().len(),
                forall|j: int| 0 <= j < i ==> self.main_syms()[j] != g@,
            decreases self.main_syms().len() - i,
        {
            if self.main[i] == *g {
                return Some(i as u16);
            }
            i += 1;
        }
        None
    }

    /// The tail-table index of a symbol text, if present.
    pub fn tail_index(&self, g: &String) -> (r: Option<u16>)
        requires
            self.wf(),
        ensures
            match r {
                Some(i) => (i as int) < self.tail_syms().len() && self.tail_syms()[i as int]
                    == g@,
                None => forall|i: int|
                    0 <= i < self.tail_syms().len() ==> self.tail_syms()[i] != g@,
            },
    {
        let mut i: usize = 0;
        while i < self.tail.len()
            invariant
                self.wf(),
                i <= self.tail_syms().len(),
                forall|j: int| 0 <= j < i ==> self.tail_syms()[j] != g@,
            decreases self.tail_syms().len() - i,
        {
            if self.tail[i] == *g {
                return Some(i as u16);
            }
            i += 1;
        }
        None
    }
}

/// The token a symbol text stands for: its main index if the text is in the
/// main table, else its tail index, else nothing.
pub open spec fn spec_token_of(a: Alphabet, g: Seq<char>) -> Option<Token> {
    match spec_find(a.main_syms(), g) {
        Some(i) => Some(Token::Main(i as u16)),
        None => match spec_find(a.tail_syms(), g) {
            Some(i) => Some(Token::Tail(i as u16)),
            None => None,
        },
    }
}

/// Checks that no symbol text occurs twice across the two tables.
fn symbols_distinct(main: &Vec<String>, tail: &Vec<String>) -> (r: bool)
    requires
        main@.len() == 2048,
        tail@.len() <= 0xffff,
    ensures
        r == distinct_syms(sym_views(main@) + sym_views(tail@)),
{
    let ghost cat = sym_views(main@) + sym_views(tail@);
    let m = main.len();
    let mut i: usize = 0;
    while i < m
        invariant
            m == main@.len() == 2048,
            cat == sym_views(main@) + sym_views(tail@),
            i <= m,
            forall|a: int, b: int| 0 <= a < i && a < b < m ==> cat[a] != cat[b],
        decreases m - i,
    {
        let mut j: usize = i + 1;
        while j < m
            invariant
                m == main@.len() == 2048,
                cat == sym_views(main@) + sym_views(tail@),
                i < m,
                i + 1 <= j <= m,
                forall|b: int| i < b < j ==> cat[i as int] != cat[b],
            decreases m - j,
        {
            if main[i] == main[j] {
                assert(cat[i as int] == cat[j as int]);
                return false;
            }
            j += 1;
        }
        i += 1;
    }
    let t = tail.len();
    let mut i: usize = 0;
    while i < m
        invariant
            m == main@.len() == 2048,
            t == tail@.len() <= 0xffff,
            cat == sym_views(main@) + sym_views(tail@),
            i <= m,
            forall|a: int, b: int| 0 <= a < i && m <= b < m + t ==> cat[a] != cat[b],
        decreases m - i,
    {
        let mut j: usize = 0;
        while j < t
            invariant
                m == main@.len() == 2048,
                t == tail@.len() <= 0xffff,
                cat == sym_views(main@) + sym_views(tail@),
                i < m,
                j <= t,
                forall|b: int| m <= b < m + j ==> cat[i as int] != cat[b],
            decreases t - j,
        {
            if main[i] == tail[j] {
                assert(cat[i as int] == cat[m + j]);
                return false;
            }
            j += 1;
        }
        i += 1;
    }
    let mut i: usize = 0;
    while i < t
        invariant
            m == main@.len() == 2048,
            t == tail@.len() <= 0xffff,
            cat == sym_views(main@) + sym_views(tail@),
            i <= t,
            forall|a: int, b: int| m <= a < m + i && a < b < m + t ==> cat[a] != cat[b],
            forall|a: int, b: int| 0 <= a < m && a < b < m + t ==> cat[a] != cat[b],
        decreases t - i,
    {
        let mut j: usize = i + 1;
        while j < t
            invariant
                m == main@.len() == 2048,
                t == tail@.len() <= 0xffff,
                cat == sym_views(main@) + sym_views(tail@),
                i < t,
                i + 1 <= j <= t,
                forall|b: int| i < b < j ==> cat[m + i] != #[trigger] cat[m + b],
            decreases t - j,
        {
            if tail[i] == tail[j] {
                assert(cat[m + i] == cat[m + j]);
                return false;
            }
            j += 1;
        }
        assert forall|b: int| m + i < b < m + t implies cat[m + i] != #[trigger] cat[b] by {
            assert(cat[m + i] != cat[m + (b - m)]);
        }
        i += 1;
    }
    assert forall|a: int, b: int| 0 <= a < b < cat.len() implies cat[a] != cat[b] by {
        if a < m {
        } else {
            assert(m <= a < m + t && a < b < m + t);
        }
    }
    true
}

} // verus!
