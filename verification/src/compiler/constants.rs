//! The constant pool of a program: values too large for a register.

use vstd::prelude::*;

use crate::float;
use crate::metadata::common::{Schema, SchemaView};

verus! {

/// A handle into a [`ConstPool`].
#[derive(Debug, Clone, Copy, PartialEq, Eq, Hash, Structural)]
pub struct ConstId(pub u32);

/// A pooled constant. Vectors are compared number by number, as floats are.
#[derive(Debug, Clone)]
pub enum Const {
    /// A vector literal: the bit patterns of its numbers.
    Vector(Vec<u32>),
    /// A string literal.
    Str(String),
    /// The schema that a new collection gets.
    Schema(Schema),
}

/// What a [`Const`] holds.
pub enum ConstView {
    /// A vector literal.
    Vector(Seq<u32>),
    /// A string literal.
    Str(Seq<char>),
    /// A schema.
    Schema(SchemaView),
}

impl View for Const {
    type V = ConstView;

    open spec fn view(&self) -> ConstView {
        match self {
            Const::Vector(v) => ConstView::Vector(v@),
            Const::Str(s) => ConstView::Str(s@),
            Const::Schema(s) => ConstView::Schema(s@),
        }
    }
}

impl PartialEq for Const {
    fn eq(&self, other: &Const) -> (r: bool) {
        match (self, other) {
            (Const::Vector(a), Const::Vector(b)) => float::are_equal_vectors(a, b),
            (Const::Str(a), Const::Str(b)) => *a == *b,
            (Const::Schema(a), Const::Schema(b)) => a.same(b),
            _ => false,
        }
    }
}

impl vstd::std_specs::cmp::PartialEqSpecImpl for Const {
    open spec fn obeys_eq_spec() -> bool {
        true
    }

    open spec fn eq_spec(&self, other: &Const) -> bool {
        match (self@, other@) {
            (ConstView::Vector(a), ConstView::Vector(b)) => float::equal_vectors(a, b),
            (ConstView::Str(a), ConstView::Str(b)) => a == b,
            (ConstView::Schema(a), ConstView::Schema(b)) => a == b,
            _ => false,
        }
    }
}

/// The constants of a program. Handles are indices in the order of insertion.
#[derive(Debug, Clone, PartialEq)]
pub struct ConstPool {
    consts: Vec<Const>,
}

impl View for ConstPool {
    type V = Seq<ConstView>;

    closed spec fn view(&self) -> Seq<ConstView> {
        self.consts@.map_values(|c: Const| c@)
    }
}

impl Default for ConstPool {
    fn default() -> (p: ConstPool)
        ensures
            p@ == Seq::<ConstView>::empty(),
    {
        ConstPool::new()
    }
}

impl ConstPool {
    /// An empty pool.
    pub fn new() -> (p: ConstPool)
        ensures
            p@ == Seq::<ConstView>::empty(),
    {
        let p = ConstPool { consts: Vec::new() };
        proof {
            assert(p@ =~= Seq::<ConstView>::empty());
        }
        p
    }

    /// Adds a constant and gives its handle. Equal values get handles of their
    /// own.
    pub fn add(&mut self, value: Const) -> (id: ConstId)
        ensures
            id.0 == old(self)@.len() as u32,
            final(self)@ == old(self)@.push(value@),
    {
        let id = ConstId(self.consts.len() as u32);
        self.consts.push(value);
        proof {
            assert(self@ =~= old(self)@.push(value@));
        }
        id
    }

    /// The constant behind a handle.
    pub fn get(&self, id: ConstId) -> (r: Option<&Const>)
        ensures
            match r {
                Some(c) => id.0 < self@.len() && c@ == self@[id.0 as int],
                None => id.0 >= self@.len(),
            },
    {
        if (id.0 as usize) < self.consts.len() {
            Some(&self.consts[id.0 as usize])
        } else {
            None
        }
    }

    /// How many constants there are.
    pub fn len(&self) -> (n: usize)
        ensures
            n == self@.len(),
    {
        self.consts.len()
    }

    /// Whether there is none.
    pub fn is_empty(&self) -> (r: bool)
        ensures
            r == (self@.len() == 0),
    {
        self.consts.is_empty()
    }
}

} // verus!
