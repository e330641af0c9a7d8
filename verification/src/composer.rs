//! A minimal arithmetic constraint-system backend.
//!
//! Wires are write-once value slots holding field elements in transformed
//! form; gates are checked against the wire assignment as they are added, and
//! the conjunction of all checks so far is the composer's satisfaction flag.
//! One 4-column lookup table can be registered, once; a lookup gate then
//! binds four wires to some row of it.

use vstd::arithmetic::div_mod::{lemma_add_mod_noop, lemma_mod_bound, lemma_small_mod};
use vstd::prelude::*;

use crate::field::{
    encodes, lemma_encodes_add, lemma_encodes_bound, lemma_encodes_mul, lemma_mont_cancel,
    limbs_eq, mont_r, p_modulus, scalar_add, scalar_from_raw, scalar_mul, scalar_reduce, val4,
};

verus! {

/// A handle to one value slot in the constraint system.
#[derive(Clone, Copy, PartialEq, Eq, Structural, Debug)]
pub struct Variable(pub usize);

/// One row of the 4-column lookup table; each column holds a canonical field
/// value as four little-endian limbs.
#[derive(Clone, Copy, Debug)]
pub struct LookupRow {
    pub c0: [u64; 4],
    pub c1: [u64; 4],
    pub c2: [u64; 4],
    pub c3: [u64; 4],
}

/// The canonical values of a row's four columns.
pub open spec fn row_view(r: LookupRow) -> (nat, nat, nat, nat) {
    (val4(r.c0), val4(r.c1), val4(r.c2), val4(r.c3))
}

/// Whether a registered table holds a row with the given canonical values.
pub open spec fn table_contains(
    t: Option<Seq<LookupRow>>,
    a: nat,
    b: nat,
    c: nat,
    d: nat,
) -> bool {
    match t {
        Some(rows) => exists|i: int| 0 <= i < rows.len() && row_view(rows[i]) == (a, b, c, d),
        None => false,
    }
}

pub struct StandardComposer {
    wires: Vec<[u64; 4]>,
    vals: Ghost<Seq<nat>>,
    zero: Variable,
    table: Option<Vec<LookupRow>>,
    sat: bool,
}

impl StandardComposer {
    /// The canonical value assigned to each wire, in allocation order.
    pub closed spec fn values(self) -> Seq<nat> {
        self.vals@
    }

    pub open spec fn num_wires(self) -> nat {
        self.values().len()
    }

    pub open spec fn is_var(self, v: Variable) -> bool {
        v.0 < self.num_wires()
    }

    /// The canonical value assigned to a wire.
    pub open spec fn val_of(self, v: Variable) -> nat {
        self.values()[v.0 as int]
    }

    /// The wire that permanently holds zero.
    pub closed spec fn zero_wire(self) -> Variable {
        self.zero
    }

    /// Whether every constraint added so far holds of the wire assignment.
    pub closed spec fn is_satisfied(self) -> bool {
        self.sat
    }

    /// The registered lookup table, if any.
    pub closed spec fn table_view(self) -> Option<Seq<LookupRow>> {
        match self.table {
            Some(t) => Some(t@),
            None => None,
        }
    }

    pub closed spec fn wf(self) -> bool {
        &&& self.wires@.len() == self.vals@.len()
        &&& forall|i: int|
            0 <= i < self.vals@.len() ==> encodes(#[trigger] self.wires@[i], self.vals@[i])
        &&& self.zero.0 < self.vals@.len()
        &&& self.vals@[self.zero.0 as int] == 0
    }

    /// Every wire of a well-formed system holds a canonical value below the
    /// modulus.
    pub proof fn lemma_wf_values(&self)
        requires
            self.wf(),
        ensures
            forall|i: int| 0 <= i < self.values().len() ==> #[trigger] self.values()[i]
                < p_modulus(),
    {
        assert forall|i: int|
            0 <= i < self.values().len() implies #[trigger] self.values()[i] < p_modulus() by {
            assert(encodes(self.wires@[i], self.vals@[i]));
        }
    }

    /// The zero wire of a well-formed system is allocated and holds zero.
    pub proof fn lemma_wf_zero(&self)
        requires
            self.wf(),
        ensures
            self.is_var(self.zero_wire()),
            self.val_of(self.zero_wire()) == 0,
    {
    }

    /// The wire that permanently holds zero.
    pub fn zero_var(&self) -> (v: Variable)
        ensures
            v == self.zero_wire(),
    {
        self.zero
    }

    /// Allocate a new wire constrained to hold an existing wire's value
    /// scaled by a plain integer.
    pub fn scaled_witness(&mut self, k: u64, z: Variable) -> (v: Variable)
        requires
            old(self).wf(),
            old(self).is_var(z),
        ensures
            final(self).wf(),
            v.0 == old(self).num_wires(),
            final(self).values() == old(self).values().push(
                (k as nat * old(self).val_of(z)) % p_modulus(),
            ),
            final(self).zero_wire() == old(self).zero_wire(),
            final(self).is_satisfied() == old(self).is_satisfied(),
            final(self).table_view() == old(self).table_view(),
    {
        let mk = scalar_from_raw([k, 0u64, 0u64, 0u64]);
        let mz = self.wires[z.0];
        let ghost cz = self.val_of(z);
        proof {
            assert(val4([k, 0u64, 0u64, 0u64]) == k as nat);
            assert((k as nat) < p_modulus());
            lemma_encodes_bound(mk, k as nat);
            lemma_encodes_bound(mz, cz);
        }
        let mm = scalar_mul(mk, mz);
        let ghost cr = (k as nat * cz) % p_modulus();
        proof {
            lemma_encodes_mul(mk, k as nat, mz, cz, mm);
        }
        let v = Variable(self.wires.len());
        self.wires.push(mm);
        proof {
            self.vals@ = self.vals@.push(cr);
        }
        v
    }

    /// A fresh system with only the zero wire, no table, and no failed
    /// constraint.
    pub fn new() -> (c: StandardComposer)
        ensures
            c.wf(),
            c.num_wires() == 1,
            c.zero_wire().0 == 0,
            c.val_of(c.zero_wire()) == 0,
            c.is_satisfied(),
            c.table_view() is None,
    {
        let ghost gv: Seq<nat> = seq![0nat];
        let zm = scalar_from_raw([0u64, 0u64, 0u64, 0u64]);
        let mut wires: Vec<[u64; 4]> = Vec::new();
        wires.push(zm);
        proof {
            assert(val4([0u64, 0u64, 0u64, 0u64]) == 0);
            assert(encodes(zm, 0nat));
        }
        StandardComposer {
            wires,
            vals: Ghost(gv),
            zero: Variable(0),
            table: None,
            sat: true,
        }
    }

    /// Allocate a new wire holding the field element with the given
    /// canonical limbs.
    pub fn add_input(&mut self, raw: [u64; 4]) -> (v: Variable)
        requires
            old(self).wf(),
            val4(raw) < p_modulus(),
        ensures
            final(self).wf(),
            v.0 == old(self).num_wires(),
            final(self).values() == old(self).values().push(val4(raw)),
            final(self).zero_wire() == old(self).zero_wire(),
            final(self).is_satisfied() == old(self).is_satisfied(),
            final(self).table_view() == old(self).table_view(),
    {
        let m = scalar_from_raw(raw);
        let v = Variable(self.wires.len());
        self.wires.push(m);
        proof {
            self.vals@ = self.vals@.push(val4(raw));
        }
        v
    }

    /// Read a wire's value back in canonical limbs, undoing the transformed
    /// encoding.
    pub fn canonical_value_of(&self, v: Variable) -> (r: [u64; 4])
        requires
            self.wf(),
            self.is_var(v),
        ensures
            val4(r) == self.val_of(v),
    {
        let m = self.wires[v.0];
        let r = scalar_reduce(m);
        proof {
            lemma_encodes_bound(m, self.val_of(v));
            lemma_small_mod(val4(m), p_modulus());
            lemma_mod_bound((self.val_of(v) * mont_r()) as int, p_modulus() as int);
            lemma_mont_cancel(val4(r), self.val_of(v));
        }
        r
    }

    /// Fused multiply-add gate: allocate and return a wire constrained to
    /// hold `a * b + d`.
    pub fn big_mul(&mut self, a: Variable, b: Variable, d: Variable) -> (r: Variable)
        requires
            old(self).wf(),
            old(self).is_var(a),
            old(self).is_var(b),
            old(self).is_var(d),
        ensures
            final(self).wf(),
            r.0 == old(self).num_wires(),
            final(self).values() == old(self).values().push(
                (old(self).val_of(a) * old(self).val_of(b) + old(self).val_of(d)) % p_modulus(),
            ),
            final(self).zero_wire() == old(self).zero_wire(),
            final(self).is_satisfied() == old(self).is_satisfied(),
            final(self).table_view() == old(self).table_view(),
    {
        let ma = self.wires[a.0];
        let mb = self.wires[b.0];
        let md = self.wires[d.0];
        let ghost ca = self.val_of(a);
        let ghost cb = self.val_of(b);
        let ghost cd = self.val_of(d);
        proof {
            lemma_encodes_bound(ma, ca);
            lemma_encodes_bound(mb, cb);
        }
        let mm = scalar_mul(ma, mb);
        proof {
            lemma_encodes_mul(ma, ca, mb, cb, mm);
            lemma_encodes_bound(mm, (ca * cb) % p_modulus());
            lemma_encodes_bound(md, cd);
        }
        let ms = scalar_add(mm, md);
        let ghost cr = (ca * cb + cd) % p_modulus();
        proof {
            lemma_encodes_add(mm, (ca * cb) % p_modulus(), md, cd, ms);
            lemma_add_mod_noop((ca * cb) as int, cd as int, p_modulus() as int);
            lemma_small_mod(cd, p_modulus());
            assert(((ca * cb) % p_modulus() + cd) % p_modulus() == cr);
            assert(encodes(ms, cr));
        }
        let r = Variable(self.wires.len());
        self.wires.push(ms);
        proof {
            self.vals@ = self.vals@.push(cr);
        }
        r
    }

    /// Equality-to-constant gate: record whether the wire holds exactly the
    /// given canonical value.
    pub fn constrain_to_constant(&mut self, a: Variable, constant: [u64; 4])
        requires
            old(self).wf(),
            old(self).is_var(a),
        ensures
            final(self).wf(),
            final(self).values() == old(self).values(),
            final(self).zero_wire() == old(self).zero_wire(),
            final(self).table_view() == old(self).table_view(),
            final(self).is_satisfied() == (old(self).is_satisfied() && old(self).val_of(a) == val4(
                constant,
            )),
    {
        let r = self.canonical_value_of(a);
        let eq = limbs_eq(&r, &constant);
        self.sat = self.sat && eq;
    }

    /// Register the 4-column lookup table.  A second registration is
    /// rejected and leaves the first table in place.
    pub fn append_lookup_table(&mut self, rows: Vec<LookupRow>) -> (ok: bool)
        requires
            old(self).wf(),
        ensures
            final(self).wf(),
            final(self).values() == old(self).values(),
            final(self).zero_wire() == old(self).zero_wire(),
            final(self).is_satisfied() == old(self).is_satisfied(),
            ok == old(self).table_view() is None,
            ok ==> final(self).table_view() == Some(rows@),
            !ok ==> final(self).table_view() == old(self).table_view(),
    {
        if self.table.is_some() {
            false
        } else {
            self.table = Some(rows);
            true
        }
    }

    /// Lookup-argument gate: record whether the four wires' values form a
    /// row of the registered table.
    pub fn plookup_gate(&mut self, a: Variable, b: Variable, c: Variable, d: Variable)
        requires
            old(self).wf(),
            old(self).is_var(a),
            old(self).is_var(b),
            old(self).is_var(c),
            old(self).is_var(d),
        ensures
            final(self).wf(),
            final(self).values() == old(self).values(),
            final(self).zero_wire() == old(self).zero_wire(),
            final(self).table_view() == old(self).table_view(),
            final(self).is_satisfied() == (old(self).is_satisfied() && table_contains(
                old(self).table_view(),
                old(self).val_of(a),
                old(self).val_of(b),
                old(self).val_of(c),
                old(self).val_of(d),
            )),
    {
        let ra = self.canonical_value_of(a);
        let rb = self.canonical_value_of(b);
        let rc = self.canonical_value_of(c);
        let rd = self.canonical_value_of(d);
        let found = match &self.table {
            None => false,
            Some(rows) => rows_contain(rows, &ra, &rb, &rc, &rd),
        };
        self.sat = self.sat && found;
    }

    /// Whether every constraint added so far holds; the exec view of
    /// `is_satisfied`.
    pub fn satisfied(&self) -> (r: bool)
        ensures
            r == self.is_satisfied(),
    {
        self.sat
    }
}

/// Scan a table for a row whose four columns hold the given values.
fn rows_contain(
    rows: &Vec<LookupRow>,
    a: &[u64; 4],
    b: &[u64; 4],
    c: &[u64; 4],
    d: &[u64; 4],
) -> (f: bool)
    ensures
        f == exists|i: int|
            0 <= i < rows@.len() && row_view(rows@[i]) == (val4(*a), val4(*b), val4(*c), val4(*d)),
{
    let mut i: usize = 0;
    let mut f = false;
    while i < rows.len()
        invariant
            i <= rows@.len(),
            f == exists|j: int|
                0 <= j < i && row_view(rows@[j]) == (val4(*a), val4(*b), val4(*c), val4(*d)),
        decreases rows@.len() - i,
    {
        let row = rows[i];
        let m = limbs_eq(&row.c0, a) && limbs_eq(&row.c1, b) && limbs_eq(&row.c2, c) && limbs_eq(
            &row.c3,
            d,
        );
        if m {
            f = true;
            proof {
                assert(row_view(rows@[i as int]) == (val4(*a), val4(*b), val4(*c), val4(*d)));
            }
        }
        i = i + 1;
    }
    f
}

} // verus!
