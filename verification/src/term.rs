//! The values that the codec reads and writes.

use vstd::prelude::*;
use vstd::slice::slice_to_vec;
use crate::integer::{same_bytes, Integer};

verus! {

/// A decoded value, or a value to encode.
#[derive(Debug, PartialEq, Eq)]
#[allow(inconsistent_fields)]
pub enum Term {
    /// A whole number of any size.
    Integer(Integer),
    /// A binary64 number, held as its bit pattern.
    Float(u64),
    /// A name.
    Atom(String),
    /// What the atoms `true` and `false` stand for.
    Bool(bool),
    /// What the atom `undefined` stands for.
    Undefined,
    /// A run of bytes.
    Binary(Vec<u8>),
    /// A run of bits that ends inside its last byte, of which only the
    /// given number of bits count.
    BitString { bytes: Vec<u8>, last_byte_bits: u8 },
    /// Text.
    Str(String),
    /// A list. A proper list has no tail; an improper one ends in the term
    /// that its tail holds.
    List { elements: Vec<Term>, tail: Option<Box<Term>> },
    /// A tuple.
    Tuple(Vec<Term>),
    /// Keys with their values, in the order in which the keys first came.
    Dict(Vec<(Term, Term)>),
    /// A process identifier.
    Pid { node: Box<Term>, id: u32, serial: u32, creation: u32 },
    /// A reference.
    Reference { node: Box<Term>, creation: u32, id: Vec<u8> },
    /// A function object.
    Fun {
        module: Box<Term>,
        arity: u8,
        pid: Box<Term>,
        index: u32,
        uniq: Vec<u8>,
        old_index: Box<Term>,
        old_uniq: Box<Term>,
        free_vars: Vec<Term>,
    },
}

/// The mathematical value of a [`Term`].
#[allow(inconsistent_fields)]
pub enum TermView {
    Integer(int),
    Float(u64),
    Atom(Seq<char>),
    Bool(bool),
    Undefined,
    Binary(Seq<u8>),
    BitString { bytes: Seq<u8>, last_byte_bits: u8 },
    Str(Seq<char>),
    List { elements: Seq<TermView>, tail: Option<Box<TermView>> },
    Tuple(Seq<TermView>),
    Dict(Seq<(TermView, TermView)>),
    Pid { node: Box<TermView>, id: u32, serial: u32, creation: u32 },
    Reference { node: Box<TermView>, creation: u32, id: Seq<u8> },
    Fun {
        module: Box<TermView>,
        arity: u8,
        pid: Box<TermView>,
        index: u32,
        uniq: Seq<u8>,
        old_index: Box<TermView>,
        old_uniq: Box<TermView>,
        free_vars: Seq<TermView>,
    },
}

/// The value of each term of a run, in order.
pub open spec fn view_all(terms: Seq<Term>) -> Seq<TermView>
    decreases terms,
{
    Seq::new(
        terms.len(),
        |i: int|
            if 0 <= i < terms.len() {
                view_of(terms[i])
            } else {
                TermView::Undefined
            },
    )
}

/// The value of each key and of each value of a run of entries, in order.
pub open spec fn view_pairs(entries: Seq<(Term, Term)>) -> Seq<(TermView, TermView)>
    decreases entries,
{
    Seq::new(
        entries.len(),
        |i: int|
            if 0 <= i < entries.len() {
                (view_of(entries[i].0), view_of(entries[i].1))
            } else {
                (TermView::Undefined, TermView::Undefined)
            },
    )
}

/// The value of a term.
pub open spec fn view_of(term: Term) -> TermView
    decreases term,
{
    match term {
        Term::Integer(v) => TermView::Integer(v@),
        Term::Float(bits) => TermView::Float(bits),
        Term::Atom(name) => TermView::Atom(name@),
        Term::Bool(b) => TermView::Bool(b),
        Term::Undefined => TermView::Undefined,
        Term::Binary(bytes) => TermView::Binary(bytes@),
        Term::BitString { bytes, last_byte_bits } => TermView::BitString {
            bytes: bytes@,
            last_byte_bits,
        },
        Term::Str(text) => TermView::Str(text@),
        Term::List { elements, tail } => TermView::List {
            elements: view_all(elements@),
            tail: match tail {
                Some(t) => Some(Box::new(view_of(*t))),
                None => None,
            },
        },
        Term::Tuple(elements) => TermView::Tuple(view_all(elements@)),
        Term::Dict(entries) => TermView::Dict(view_pairs(entries@)),
        Term::Pid { node, id, serial, creation } => TermView::Pid {
            node: Box::new(view_of(*node)),
            id,
            serial,
            creation,
        },
        Term::Reference { node, creation, id } => TermView::Reference {
            node: Box::new(view_of(*node)),
            creation,
            id: id@,
        },
        Term::Fun { module, arity, pid, index, uniq, old_index, old_uniq, free_vars } => TermView::Fun {
            module: Box::new(view_of(*module)),
            arity,
            pid: Box::new(view_of(*pid)),
            index,
            uniq: uniq@,
            old_index: Box::new(view_of(*old_index)),
            old_uniq: Box::new(view_of(*old_uniq)),
            free_vars: view_all(free_vars@),
        },
    }
}

impl View for Term {
    type V = TermView;

    open spec fn view(&self) -> TermView {
        view_of(*self)
    }
}

/// The values of a run with one more term are the values of the run and
/// then the value of that term.
pub proof fn lemma_view_all_push(terms: Seq<Term>, last: Term)
    ensures
        view_all(terms.push(last)) == view_all(terms).push(last@),
{
    assert(view_all(terms.push(last)) =~= view_all(terms).push(last@));
}

/// A run of no terms has no values.
pub proof fn lemma_view_all_empty()
    ensures
        view_all(Seq::<Term>::empty()) == Seq::<TermView>::empty(),
{
    assert(view_all(Seq::<Term>::empty()) =~= Seq::<TermView>::empty());
}

/// Whether two runs of terms have the same values in the same order.
fn all_equal(a: &Vec<Term>, b: &Vec<Term>) -> (r: bool)
    ensures
        r == (view_all(a@) == view_all(b@)),
    decreases a,
{
    if a.len() != b.len() {
        assert(view_all(a@).len() != view_all(b@).len());
        return false;
    }
    let mut i: usize = 0;
    while i < a.len()
        invariant
            i <= a@.len(),
            a@.len() == b@.len(),
            forall|j: int| 0 <= j < i ==> view_of(a@[j]) == view_of(b@[j]),
        decreases a@.len() - i,
    {
        if !a[i].equals(&b[i]) {
            assert(view_all(a@)[i as int] != view_all(b@)[i as int]);
            return false;
        }
        i += 1;
    }
    assert(view_all(a@) =~= view_all(b@));
    true
}

/// Whether two runs of entries have the same keys and values in the same
/// order.
fn all_pairs_equal(a: &Vec<(Term, Term)>, b: &Vec<(Term, Term)>) -> (r: bool)
    ensures
        r == (view_pairs(a@) == view_pairs(b@)),
    decreases a,
{
    if a.len() != b.len() {
        assert(view_pairs(a@).len() != view_pairs(b@).len());
        return false;
    }
    let mut i: usize = 0;
    while i < a.len()
        invariant
            i <= a@.len(),
            a@.len() == b@.len(),
            forall|j: int|
                0 <= j < i ==> view_of(a@[j].0) == view_of(b@[j].0) && view_of(a@[j].1) == view_of(
                    b@[j].1,
                ),
        decreases a@.len() - i,
    {
        if !(a[i].0.equals(&b[i].0) && a[i].1.equals(&b[i].1)) {
            assert(view_pairs(a@)[i as int] != view_pairs(b@)[i as int]);
            return false;
        }
        i += 1;
    }
    assert(view_pairs(a@) =~= view_pairs(b@));
    true
}

/// A copy of each term of a run.
fn duplicate_all(terms: &Vec<Term>) -> (r: Vec<Term>)
    ensures
        view_all(r@) == view_all(terms@),
    decreases terms,
{
    let mut copy: Vec<Term> = Vec::new();
    let mut i: usize = 0;
    while i < terms.len()
        invariant
            i <= terms@.len(),
            copy@.len() == i,
            forall|j: int| 0 <= j < i ==> view_of(copy@[j]) == view_of(terms@[j]),
        decreases terms@.len() - i,
    {
        copy.push(terms[i].duplicate());
        i += 1;
    }
    assert(view_all(copy@) =~= view_all(terms@));
    copy
}

/// A copy of each key and value of a run of entries.
fn duplicate_pairs(entries: &Vec<(Term, Term)>) -> (r: Vec<(Term, Term)>)
    ensures
        view_pairs(r@) == view_pairs(entries@),
    decreases entries,
{
    let mut copy: Vec<(Term, Term)> = Vec::new();
    let mut i: usize = 0;
    while i < entries.len()
        invariant
            i <= entries@.len(),
            copy@.len() == i,
            forall|j: int|
                0 <= j < i ==> view_of(copy@[j].0) == view_of(entries@[j].0) && view_of(
                    copy@[j].1,
                ) == view_of(entries@[j].1),
        decreases entries@.len() - i,
    {
        copy.push((entries[i].0.duplicate(), entries[i].1.duplicate()));
        i += 1;
    }
    assert(view_pairs(copy@) =~= view_pairs(entries@));
    copy
}

impl Clone for Term {
    fn clone(&self) -> (r: Self)
        ensures
            r@ == self@,
    {
        self.duplicate()
    }
}

impl Term {
    /// A copy of the term.
    pub fn duplicate(&self) -> (r: Term)
        ensures
            r@ == self@,
        decreases self,
    {
        match self {
            Term::Integer(v) => Term::Integer(v.clone()),
            Term::Float(bits) => Term::Float(*bits),
            Term::Atom(name) => Term::Atom(name.clone()),
            Term::Bool(b) => Term::Bool(*b),
            Term::Undefined => Term::Undefined,
            Term::Binary(bytes) => Term::Binary(slice_to_vec(bytes.as_slice())),
            Term::BitString { bytes, last_byte_bits } => Term::BitString {
                bytes: slice_to_vec(bytes.as_slice()),
                last_byte_bits: *last_byte_bits,
            },
            Term::Str(text) => Term::Str(text.clone()),
            Term::List { elements, tail } => Term::List {
                elements: duplicate_all(elements),
                tail: match tail {
                    Some(last) => Some(Box::new(last.duplicate())),
                    None => None,
                },
            },
            Term::Tuple(elements) => Term::Tuple(duplicate_all(elements)),
            Term::Dict(entries) => Term::Dict(duplicate_pairs(entries)),
            Term::Pid { node, id, serial, creation } => Term::Pid {
                node: Box::new(node.duplicate()),
                id: *id,
                serial: *serial,
                creation: *creation,
            },
            Term::Reference { node, creation, id } => Term::Reference {
                node: Box::new(node.duplicate()),
                creation: *creation,
                id: slice_to_vec(id.as_slice()),
            },
            Term::Fun { module, arity, pid, index, uniq, old_index, old_uniq, free_vars } => Term::Fun {
                module: Box::new(module.duplicate()),
                arity: *arity,
                pid: Box::new(pid.duplicate()),
                index: *index,
                uniq: slice_to_vec(uniq.as_slice()),
                old_index: Box::new(old_index.duplicate()),
                old_uniq: Box::new(old_uniq.duplicate()),
                free_vars: duplicate_all(free_vars),
            },
        }
    }

    /// Whether two terms have the same value: the same kind, and the same
    /// parts in the same order.
    pub fn equals(&self, other: &Term) -> (r: bool)
        ensures
            r == (self@ == other@),
        decreases self,
    {
        match (self, other) {
            (Term::Integer(a), Term::Integer(b)) => a.equals(b),
            (Term::Float(a), Term::Float(b)) => *a == *b,
            (Term::Atom(a), Term::Atom(b)) => *a == *b,
            (Term::Bool(a), Term::Bool(b)) => *a == *b,
            (Term::Undefined, Term::Undefined) => true,
            (Term::Binary(a), Term::Binary(b)) => same_bytes(a.as_slice(), b.as_slice()),
            (
                Term::BitString { bytes: a, last_byte_bits: abits },
                Term::BitString { bytes: b, last_byte_bits: bbits },
            ) => *abits == *bbits && same_bytes(a.as_slice(), b.as_slice()),
            (Term::Str(a), Term::Str(b)) => *a == *b,
            (Term::List { elements: a, tail: atail }, Term::List { elements: b, tail: btail }) => {
                let same_tail = match (atail, btail) {
                    (None, None) => true,
                    (Some(x), Some(y)) => x.equals(y),
                    _ => false,
                };
                same_tail && all_equal(a, b)
            },
            (Term::Tuple(a), Term::Tuple(b)) => all_equal(a, b),
            (Term::Dict(a), Term::Dict(b)) => all_pairs_equal(a, b),
            (
                Term::Pid { node: anode, id: aid, serial: aserial, creation: acreation },
                Term::Pid { node: bnode, id: bid, serial: bserial, creation: bcreation },
            ) => *aid == *bid && *aserial == *bserial && *acreation == *bcreation && anode.equals(
                bnode,
            ),
            (
                Term::Reference { node: anode, creation: acreation, id: aid },
                Term::Reference { node: bnode, creation: bcreation, id: bid },
            ) => *acreation == *bcreation && same_bytes(aid.as_slice(), bid.as_slice())
                && anode.equals(bnode),
            (
                Term::Fun {
                    module: amodule,
                    arity: aarity,
                    pid: apid,
                    index: aindex,
                    uniq: auniq,
                    old_index: aold_index,
                    old_uniq: aold_uniq,
                    free_vars: afree,
                },
                Term::Fun {
                    module: bmodule,
                    arity: barity,
                    pid: bpid,
                    index: bindex,
                    uniq: buniq,
                    old_index: bold_index,
                    old_uniq: bold_uniq,
                    free_vars: bfree,
                },
            ) => *aarity == *barity && *aindex == *bindex && same_bytes(
                auniq.as_slice(),
                buniq.as_slice(),
            ) && amodule.equals(bmodule) && apid.equals(bpid) && aold_index.equals(bold_index)
                && aold_uniq.equals(bold_uniq) && all_equal(afree, bfree),
            _ => false,
        }
    }
}

} // verus!
