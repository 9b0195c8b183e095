//! A circuit as a DAG of Pauli products: each product depends on the last
//! earlier product that touches one of its qubits.
use vstd::prelude::*;
use crate::pauliproduct::{PauliProduct, GateType, ProductParseError, Operator, LineOutcome, line_outcome, body_end, body_operators,
    parsed_gate_type, max_qubit_of, line_ok, line_fits, line_parses, lemma_body_end_bounds, is_clifford_gate};
use crate::text::{trim_seq, trim_string};

verus! {

/// A quantum circuit as a DAG of Pauli products with dependency tracking.
pub struct Circuit {
    pub products: Vec<PauliProduct>,
    pub circuit_fname: String,
    pub num_qubits: usize,
}

/// Product `pp` has an operator on qubit `q`.
pub open spec fn touches(pp: PauliProduct, q: u16) -> bool {
    exists|i: int| 0 <= i < pp.operators@.len() && #[trigger] pp.operators@[i].qubit == q
}

/// One of the first `j` operators of `pp` is on qubit `q`.
pub open spec fn touches_prefix(pp: PauliProduct, j: int, q: u16) -> bool {
    exists|i: int| 0 <= i < j && #[trigger] pp.operators@[i].qubit == q
}

/// The last product before `k` that touches qubit `q`, or -1 if none does.
pub open spec fn last_toucher(prods: Seq<PauliProduct>, k: int, q: u16) -> int
    decreases k,
{
    if k <= 0 {
        -1
    } else if touches(prods[k - 1], q) {
        k - 1
    } else {
        last_toucher(prods, k - 1, q)
    }
}

/// The dependency that operator `j` of product `k` creates: (child, parent)
/// when an earlier product touches its qubit.
pub open spec fn op_relation(prods: Seq<PauliProduct>, k: int, j: int) -> Option<(i32, i32)> {
    let t = last_toucher(prods, k, prods[k].operators@[j].qubit);
    if t == -1 { None } else { Some((k as i32, t as i32)) }
}

/// The (child, parent) dependencies of the products before `k` and of the
/// first `j` operators of product `k`, in that order.
pub open spec fn relations_upto(prods: Seq<PauliProduct>, k: int, j: int) -> Seq<(i32, i32)>
    decreases k, j,
{
    if j > 0 {
        let prev = relations_upto(prods, k, j - 1);
        match op_relation(prods, k, j - 1) {
            Some(r) => prev.push(r),
            None => prev,
        }
    } else if k > 0 {
        relations_upto(prods, k - 1, prods[k - 1].operators@.len() as int)
    } else {
        Seq::empty()
    }
}

/// All dependencies of the circuit, by child in product order, then by operator.
pub open spec fn all_relations(prods: Seq<PauliProduct>) -> Seq<(i32, i32)> {
    relations_upto(prods, prods.len() as int, 0)
}

/// The parents that the relations give to `c`, in order.
pub open spec fn parents_from(rels: Seq<(i32, i32)>, c: int) -> Seq<i32>
    decreases rels.len(),
{
    if rels.len() == 0 {
        Seq::empty()
    } else {
        let prev = parents_from(rels.drop_last(), c);
        if rels.last().0 as int == c { prev.push(rels.last().1) } else { prev }
    }
}

/// The children that the relations give to `p`, in order.
pub open spec fn children_from(rels: Seq<(i32, i32)>, p: int) -> Seq<i32>
    decreases rels.len(),
{
    if rels.len() == 0 {
        Seq::empty()
    } else {
        let prev = children_from(rels.drop_last(), p);
        if rels.last().1 as int == p { prev.push(rels.last().0) } else { prev }
    }
}

/// The products are numbered by position, no product names a qubit twice,
/// and every qubit is below `num_qubits`.
pub open spec fn products_wf(prods: Seq<PauliProduct>, num_qubits: int) -> bool {
    &&& prods.len() < i32::MAX
    &&& forall|k: int| 0 <= k < prods.len() ==> (#[trigger] prods[k]).id == k
    &&& forall|k: int, i: int, j: int| 0 <= k < prods.len() && 0 <= i < j < prods[k].operators@.len()
        ==> (#[trigger] prods[k].operators@[i]).qubit != (#[trigger] prods[k].operators@[j]).qubit
    &&& forall|k: int, i: int| 0 <= k < prods.len() && 0 <= i < prods[k].operators@.len()
        ==> (#[trigger] prods[k].operators@[i]).qubit < num_qubits
}

proof fn lemma_last_toucher_bounds(prods: Seq<PauliProduct>, k: int, q: u16)
    ensures
        last_toucher(prods, k, q) == -1 || 0 <= last_toucher(prods, k, q) < k,
    decreases k,
{
    if k > 0 && !touches(prods[k - 1], q) {
        lemma_last_toucher_bounds(prods, k - 1, q);
    }
}

/// The texts of the lines.
pub open spec fn texts(lines: Seq<String>) -> Seq<Seq<char>> {
    lines.map_values(|l: String| l@)
}

/// Every line up to and including the first refused one is fit for
/// `set_from_str`.
pub open spec fn loadable(ls: Seq<Seq<char>>) -> bool
    decreases ls.len(),
{
    ls.len() == 0 || (line_ok(trim_seq(ls[0]))
        && (line_outcome(trim_seq(ls[0])) is Parsed ==> loadable(ls.drop_first())))
}

/// The index of the first line that does not parse, or the number of lines.
pub open spec fn first_refused(ls: Seq<Seq<char>>) -> int
    decreases ls.len(),
{
    if ls.len() == 0 {
        0
    } else if line_outcome(trim_seq(ls[0])) is Parsed {
        1 + first_refused(ls.drop_first())
    } else {
        0
    }
}

/// Loading keeps a parsed line unless it is an X or Z gate.
pub open spec fn keeps(t: Seq<char>) -> bool {
    let g = parsed_gate_type(t, GateType::T);
    g != GateType::X && g != GateType::Z
}

/// The trimmed lines that loading keeps, in order.
pub open spec fn kept_lines(ls: Seq<Seq<char>>) -> Seq<Seq<char>>
    decreases ls.len(),
{
    if ls.len() == 0 {
        Seq::empty()
    } else {
        let rest = kept_lines(ls.drop_last());
        let t = trim_seq(ls.last());
        if keeps(t) { rest.push(t) } else { rest }
    }
}

/// Product `pp` is what the trimmed line `t` gives as the `k`-th product.
pub open spec fn product_of_line(pp: PauliProduct, t: Seq<char>, k: int) -> bool {
    &&& pp.operators@ == body_operators(t, body_end(t))
    &&& pp.gate_type == parsed_gate_type(t, GateType::T)
    &&& pp.id == k
    &&& pp.max_qubit == max_qubit_of(pp.operators@)
}

/// The largest `max_qubit` of the products, or 0 when there are none.
pub open spec fn max_qubit_all(prods: Seq<PauliProduct>) -> nat
    decreases prods.len(),
{
    if prods.len() == 0 {
        0
    } else {
        let m = max_qubit_all(prods.drop_last());
        if prods.last().max_qubit > m { prods.last().max_qubit as nat } else { m }
    }
}

/// The operators that a product line puts on its qubits go to strictly
/// increasing qubits, each below the line's position.
proof fn lemma_body_ops_increasing(s: Seq<char>, i: int)
    requires
        i <= 65537,
    ensures
        forall|a: int, b: int| 0 <= a < b < body_operators(s, i).len()
            ==> (#[trigger] body_operators(s, i)[a]).qubit < (#[trigger] body_operators(s, i)[b]).qubit,
        forall|a: int| 0 <= a < body_operators(s, i).len() ==> (#[trigger] body_operators(s, i)[a]).qubit < i - 1,
    decreases i,
{
    if i > 1 {
        lemma_body_ops_increasing(s, i - 1);
        let prev = body_operators(s, i - 1);
        if is_pauli_char_at(s, i - 1) {
            let op = Operator { qubit: (i - 2) as u16, basis: s[i - 1] };
            assert(op.qubit == i - 2);
            assert(body_operators(s, i) == prev.push(op));
        }
    }
}

spec fn is_pauli_char_at(s: Seq<char>, j: int) -> bool {
    s[j] == 'X' || s[j] == 'Y' || s[j] == 'Z'
}

proof fn lemma_max_qubit_bound(ops: Seq<Operator>)
    ensures
        forall|k: int| 0 <= k < ops.len() ==> (#[trigger] ops[k]).qubit <= max_qubit_of(ops),
    decreases ops.len(),
{
    if ops.len() > 0 {
        lemma_max_qubit_bound(ops.drop_last());
        assert forall|k: int| 0 <= k < ops.len() implies (#[trigger] ops[k]).qubit <= max_qubit_of(ops) by {
            if k < ops.len() - 1 {
                assert(ops[k] == ops.drop_last()[k]);
            }
        }
    }
}

proof fn lemma_max_qubit_all_bound(prods: Seq<PauliProduct>)
    ensures
        forall|k: int| 0 <= k < prods.len() ==> (#[trigger] prods[k]).max_qubit <= max_qubit_all(prods),
        max_qubit_all(prods) <= u16::MAX,
    decreases prods.len(),
{
    if prods.len() > 0 {
        lemma_max_qubit_all_bound(prods.drop_last());
        assert forall|k: int| 0 <= k < prods.len() implies (#[trigger] prods[k]).max_qubit <= max_qubit_all(prods) by {
            if k < prods.len() - 1 {
                assert(prods[k] == prods.drop_last()[k]);
            }
        }
    }
}

/// The relations depend on the products' operators alone.
proof fn lemma_relations_same_ops(a: Seq<PauliProduct>, b: Seq<PauliProduct>, k: int, j: int)
    requires
        a.len() == b.len(),
        forall|i: int| 0 <= i < a.len() ==> (#[trigger] a[i]).operators@ == b[i].operators@,
        0 <= k <= a.len(),
        k < a.len() || j <= 0,
    ensures
        relations_upto(a, k, j) == relations_upto(b, k, j),
    decreases k, j,
{
    if j > 0 {
        lemma_relations_same_ops(a, b, k, j - 1);
        assert(a[k].operators@ == b[k].operators@);
        let q = a[k].operators@[j - 1].qubit;
        lemma_last_toucher_same_ops(a, b, k, q);
        assert(op_relation(a, k, j - 1) == op_relation(b, k, j - 1));
    } else if k > 0 {
        assert(a[k - 1].operators@ == b[k - 1].operators@);
        lemma_relations_same_ops(a, b, k - 1, a[k - 1].operators@.len() as int);
    }
}

proof fn lemma_last_toucher_same_ops(a: Seq<PauliProduct>, b: Seq<PauliProduct>, k: int, q: u16)
    requires
        a.len() == b.len(),
        forall|i: int| 0 <= i < a.len() ==> (#[trigger] a[i]).operators@ == b[i].operators@,
        k <= a.len(),
    ensures
        last_toucher(a, k, q) == last_toucher(b, k, q),
    decreases k,
{
    if k > 0 {
        assert(a[k - 1].operators@ == b[k - 1].operators@);
        assert(touches(a[k - 1], q) == touches(b[k - 1], q));
        lemma_last_toucher_same_ops(a, b, k - 1, q);
    }
}

proof fn lemma_first_refused(ls: Seq<Seq<char>>, i: int)
    requires
        0 <= i <= ls.len(),
        forall|j: int| 0 <= j < i ==> line_outcome(trim_seq(#[trigger] ls[j])) is Parsed,
        i == ls.len() || !(line_outcome(trim_seq(ls[i])) is Parsed),
    ensures
        first_refused(ls) == i,
    decreases i,
{
    if i > 0 {
        let d = ls.drop_first();
        assert forall|j: int| 0 <= j < i - 1 implies line_outcome(trim_seq(#[trigger] d[j])) is Parsed by {
            assert(d[j] == ls[j + 1]);
        }
        if i < ls.len() {
            assert(d[i - 1] == ls[i]);
        }
        assert(line_outcome(trim_seq(ls[0])) is Parsed);
        lemma_first_refused(d, i - 1);
    }
}

impl Circuit {
    /// Loads the products of a circuit given as the lines of its file: each
    /// line, trimmed, is parsed into a product; X and Z gates are dropped and
    /// the rest get ids 0, 1, ... in order. The first line that does not
    /// parse stops loading with its error, keeping the products before it.
    /// Otherwise the qubit count becomes one more than the largest qubit used
    /// and the dependencies are generated.
    pub fn load_circuit(&mut self, lines: &Vec<String>) -> (r: Result<(), ProductParseError>)
        requires
            old(self).products@.len() == 0,
            lines@.len() < i32::MAX,
            loadable(texts(lines@)),
        ensures
            final(self).circuit_fname == old(self).circuit_fname,
            final(self).products@.len() == kept_lines(texts(lines@).take(first_refused(texts(lines@)))).len(),
            forall|k: int| 0 <= k < final(self).products@.len() ==> product_of_line(#[trigger] final(self).products@[k],
                kept_lines(texts(lines@).take(first_refused(texts(lines@))))[k], k),
            first_refused(texts(lines@)) == lines@.len() ==> {
                &&& r is Ok
                &&& final(self).num_qubits == max_qubit_all(final(self).products@) + 1
                &&& deps_wf(final(self).products@)
                &&& forall|k: int| 0 <= k < final(self).products@.len() ==> {
                    &&& (#[trigger] final(self).products@[k]).parents@ == parents_from(all_relations(final(self).products@), k)
                    &&& final(self).products@[k].children@ == children_from(all_relations(final(self).products@), k)
                }
            },
            first_refused(texts(lines@)) < lines@.len() ==> {
                &&& final(self).num_qubits == old(self).num_qubits
                &&& forall|k: int| 0 <= k < final(self).products@.len() ==> (#[trigger] final(self).products@[k]).parents@.len() == 0
                    && final(self).products@[k].children@.len() == 0
                &&& match line_outcome(trim_seq(texts(lines@)[first_refused(texts(lines@))])) {
                    LineOutcome::UnknownGate(t) => r matches Err(ProductParseError::UnknownGate(g)) && g@ == t,
                    LineOutcome::Illegal(c, i) => r == Err::<(), ProductParseError>(ProductParseError::IllegalCharacter(c, i as usize)),
                    LineOutcome::Parsed(_) => false,
                }
            },
    {
        let ghost ls = texts(lines@);
        let mut product_id: i32 = 0;
        let mut i: usize = 0;
        proof {
            assert(ls.take(0) =~= Seq::<Seq<char>>::empty());
            assert(ls.skip(0) =~= ls);
        }
        while i < lines.len()
            invariant
                i <= lines@.len(),
                ls == texts(lines@),
                lines@.len() < i32::MAX,
                loadable(ls.skip(i as int)),
                forall|j: int| 0 <= j < i ==> line_outcome(trim_seq(#[trigger] ls[j])) is Parsed,
                forall|j: int| 0 <= j < i ==> line_ok(trim_seq(#[trigger] ls[j])),
                self.products@.len() == kept_lines(ls.take(i as int)).len(),
                self.products@.len() <= i,
                product_id as int == self.products@.len(),
                forall|k: int| 0 <= k < self.products@.len() ==> product_of_line(#[trigger] self.products@[k], kept_lines(ls.take(i as int))[k], k)
                    && self.products@[k].parents@.len() == 0 && self.products@[k].children@.len() == 0,
                self.num_qubits == old(self).num_qubits,
                self.circuit_fname == old(self).circuit_fname,
            decreases lines@.len() - i,
        {
            let product_string = trim_string(lines[i].as_str());
            let ghost t = product_string@;
            proof {
                assert(ls[i as int] == lines@[i as int]@);
                assert(ls.skip(i as int)[0] == ls[i as int]);
                assert(ls.skip(i as int).drop_first() =~= ls.skip(i + 1));
                assert(ls.take(i + 1).drop_last() =~= ls.take(i as int));
                assert(ls.take(i + 1).last() == ls[i as int]);
            }
            let mut product = PauliProduct::new();
            let res = product.set_from_str(product_id, product_string.as_str());
            match res {
                Err(e) => {
                    proof {
                        lemma_first_refused(ls, i as int);
                    }
                    return Err(e);
                },
                Ok(()) => {},
            }
            proof {
                assert(product.operators@ =~= body_operators(t, body_end(t)));
            }
            if product.gate_type.is_x() || product.gate_type.is_z() {
                i += 1;
                continue;
            }
            self.products.push(product);
            product_id += 1;
            i += 1;
        }
        proof {
            lemma_first_refused(ls, i as int);
            assert(ls.take(i as int) =~= ls);
        }
        let ghost loaded = self.products@;
        let mut m: u16 = 0;
        let mut k: usize = 0;
        while k < self.products.len()
            invariant
                k <= self.products@.len(),
                m == max_qubit_all(self.products@.take(k as int)),
            decreases self.products@.len() - k,
        {
            proof {
                assert(self.products@.take(k + 1).drop_last() =~= self.products@.take(k as int));
            }
            if self.products[k].max_qubit > m {
                m = self.products[k].max_qubit;
            }
            k += 1;
        }
        proof {
            assert(self.products@.take(k as int) =~= self.products@);
        }
        self.num_qubits = m as usize + 1;
        proof {
            let nq = self.num_qubits as int;
            lemma_max_qubit_all_bound(loaded);
            assert forall|c: int, a: int, b: int| 0 <= c < loaded.len() && 0 <= a < b < loaded[c].operators@.len()
                implies (#[trigger] loaded[c].operators@[a]).qubit != (#[trigger] loaded[c].operators@[b]).qubit by {
                let t = kept_lines(ls)[c];
                assert(product_of_line(loaded[c], t, c));
                lemma_kept_lines_len(ls, c);
                lemma_body_end_bounds(t, 1);
                lemma_body_ops_increasing(t, body_end(t));
            }
            assert forall|c: int, a: int| 0 <= c < loaded.len() && 0 <= a < loaded[c].operators@.len()
                implies (#[trigger] loaded[c].operators@[a]).qubit < nq by {
                lemma_max_qubit_bound(loaded[c].operators@);
                assert(loaded[c].max_qubit <= max_qubit_all(loaded));
            }
            assert forall|c: int| 0 <= c < loaded.len() implies (#[trigger] loaded[c]).id == c by {
                assert(product_of_line(loaded[c], kept_lines(ls)[c], c));
            }
            assert(products_wf(loaded, nq));
        }
        self.generate_dependencies();
        proof {
            let fin = self.products@;
            assert forall|c: int| 0 <= c < loaded.len() implies (#[trigger] loaded[c]).operators@ == fin[c].operators@ by {
                assert(fin[c].operators == loaded[c].operators);
            }
            lemma_relations_same_ops(loaded, fin, loaded.len() as int, 0);
            assert forall|c: int| 0 <= c < loaded.len() implies (#[trigger] loaded[c]).parents@.len() == 0 && loaded[c].children@.len() == 0 by {
                assert(product_of_line(loaded[c], kept_lines(ls)[c], c));
            }
            lemma_generated_deps_wf(loaded, fin, self.num_qubits as int);
            assert forall|c: int| 0 <= c < fin.len() implies product_of_line(#[trigger] fin[c], kept_lines(ls)[c], c) by {
                assert(product_of_line(loaded[c], kept_lines(ls)[c], c));
                assert(fin[c].operators == loaded[c].operators);
            }
            assert forall|c: int| 0 <= c < loaded.len() implies (#[trigger] loaded[c]).max_qubit == fin[c].max_qubit by {}
            lemma_max_qubit_all_same(loaded, fin);
            assert forall|c: int| 0 <= c < fin.len() implies {
                &&& (#[trigger] fin[c]).parents@ == parents_from(all_relations(fin), c)
                &&& fin[c].children@ == children_from(all_relations(fin), c)
            } by {
                assert(loaded[c].parents@.len() == 0);
                assert(loaded[c].parents@ + parents_from(all_relations(loaded), c) =~= parents_from(all_relations(loaded), c));
                assert(loaded[c].children@ + children_from(all_relations(loaded), c) =~= children_from(all_relations(loaded), c));
            }
        }
        Ok(())
    }
}

/// A kept line is no longer than the line it was trimmed from allows:
/// every kept line is fit for `set_from_str`.
proof fn lemma_kept_lines_len(ls: Seq<Seq<char>>, c: int)
    requires
        0 <= c < kept_lines(ls).len(),
        forall|j: int| 0 <= j < ls.len() ==> line_ok(trim_seq(#[trigger] ls[j])),
    ensures
        kept_lines(ls)[c].len() <= 65536,
    decreases ls.len(),
{
    if ls.len() > 0 {
        let rest = kept_lines(ls.drop_last());
        assert forall|j: int| 0 <= j < ls.drop_last().len() implies line_ok(trim_seq(#[trigger] ls.drop_last()[j])) by {
            assert(ls.drop_last()[j] == ls[j]);
        }
        if c < rest.len() {
            lemma_kept_lines_len(ls.drop_last(), c);
        } else {
            assert(line_ok(trim_seq(ls[ls.len() - 1])));
        }
    }
}

proof fn lemma_max_qubit_all_same(a: Seq<PauliProduct>, b: Seq<PauliProduct>)
    requires
        a.len() == b.len(),
        forall|i: int| 0 <= i < a.len() ==> (#[trigger] a[i]).max_qubit == b[i].max_qubit,
    ensures
        max_qubit_all(a) == max_qubit_all(b),
    decreases a.len(),
{
    if a.len() > 0 {
        assert forall|i: int| 0 <= i < a.drop_last().len() implies (#[trigger] a.drop_last()[i]).max_qubit == b.drop_last()[i].max_qubit by {
            assert(a.drop_last()[i] == a[i] && b.drop_last()[i] == b[i]);
        }
        lemma_max_qubit_all_same(a.drop_last(), b.drop_last());
        assert(a[a.len() - 1].max_qubit == b[b.len() - 1].max_qubit);
    }
}

/// The index of the first line that does not parse once trimmed, or the
/// number of lines.
pub fn first_refused_line(lines: &Vec<String>) -> (i: usize)
    ensures
        i == first_refused(texts(lines@)),
{
    let ghost ls = texts(lines@);
    let mut i: usize = 0;
    while i < lines.len()
        invariant
            i <= lines@.len(),
            ls == texts(lines@),
            forall|j: int| 0 <= j < i ==> line_outcome(trim_seq(#[trigger] ls[j])) is Parsed,
        decreases lines@.len() - i,
    {
        let t = trim_string(lines[i].as_str());
        proof {
            assert(ls[i as int] == lines@[i as int]@);
        }
        if !line_parses(t.as_str()) {
            proof {
                lemma_first_refused(ls, i as int);
            }
            return i;
        }
        i += 1;
    }
    proof {
        lemma_first_refused(ls, i as int);
    }
    i
}

/// Every line up to and including the first refused one is fit for loading
/// (see `loadable`).
pub fn lines_loadable(lines: &Vec<String>) -> (b: bool)
    ensures
        b == loadable(texts(lines@)),
{
    let ghost ls = texts(lines@);
    let mut i: usize = lines.len();
    let mut ok = true;
    proof {
        assert(ls.skip(ls.len() as int) =~= Seq::<Seq<char>>::empty());
    }
    while i > 0
        invariant
            i <= lines@.len(),
            ls == texts(lines@),
            ok == loadable(ls.skip(i as int)),
        decreases i,
    {
        i -= 1;
        let t = trim_string(lines[i].as_str());
        proof {
            assert(ls[i as int] == lines@[i as int]@);
            assert(ls.skip(i as int)[0] == ls[i as int]);
            assert(ls.skip(i as int).drop_first() =~= ls.skip(i + 1));
        }
        let fits = line_fits(t.as_str());
        let parsed = line_parses(t.as_str());
        ok = fits && (!parsed || ok);
    }
    proof {
        assert(ls.skip(0) =~= ls);
    }
    ok
}

impl Circuit {
    /// An empty circuit read from `fname`.
    pub fn new(fname: &String) -> (c: Self)
        ensures
            c.products@.len() == 0,
            c.circuit_fname@ == fname@,
            c.num_qubits == 0,
    {
        Circuit { products: Vec::new(), circuit_fname: fname.clone(), num_qubits: 0 }
    }

    /// The product with the given id.
    pub fn get_product(&self, id: i32) -> (pp: &PauliProduct)
        requires
            0 <= id < self.products@.len(),
        ensures
            *pp == self.products@[id as int],
    {
        &self.products[id as usize]
    }

    /// The number of products.
    pub fn num_products(&self) -> (n: usize)
        ensures
            n == self.products@.len(),
    {
        self.products.len()
    }

    /// Adds to each product the parents and children that qubit overlap
    /// gives it: for each product in order and each of its operators, the last
    /// earlier product on that qubit becomes its parent.
    pub fn generate_dependencies(&mut self)
        requires
            products_wf(old(self).products@, old(self).num_qubits as int),
        ensures
            final(self).num_qubits == old(self).num_qubits,
            final(self).circuit_fname == old(self).circuit_fname,
            final(self).products@.len() == old(self).products@.len(),
            forall|k: int| 0 <= k < final(self).products@.len() ==> {
                let o = #[trigger] old(self).products@[k];
                let f = final(self).products@[k];
                &&& f.operators == o.operators
                &&& f.id == o.id
                &&& f.gate_type == o.gate_type
                &&& f.max_qubit == o.max_qubit
                &&& f.parents@ == o.parents@ + parents_from(all_relations(old(self).products@), k)
                &&& f.children@ == o.children@ + children_from(all_relations(old(self).products@), k)
            },
    {
        let ghost prods = self.products@;
        let nq = self.num_qubits;
        let mut relationships: Vec<(i32, i32)> = Vec::new();
        let mut current_pps: Vec<i32> = vec![-1i32; nq];
        let mut k: usize = 0;
        proof {
            assert forall|q: u16| q < nq implies current_pps@[q as int] == last_toucher(prods, 0, q) by {}
        }
        while k < self.products.len()
            invariant
                k <= prods.len(),
                self.products@ == prods,
                self.num_qubits == nq,
                products_wf(prods, nq as int),
                current_pps@.len() == nq,
                relationships@ == relations_upto(prods, k as int, 0),
                forall|q: u16| q < nq ==> current_pps@[q as int] == last_toucher(prods, k as int, q),
            decreases prods.len() - k,
        {
            let nops = self.products[k].operators.len();
            let mut j: usize = 0;
            while j < nops
                invariant
                    k < prods.len(),
                    j <= nops,
                    nops == prods[k as int].operators@.len(),
                    self.products@ == prods,
                    products_wf(prods, nq as int),
                    current_pps@.len() == nq,
                    relationships@ == relations_upto(prods, k as int, j as int),
                    forall|q: u16| q < nq ==> current_pps@[q as int] == (if touches_prefix(prods[k as int], j as int, q) {
                        k as int
                    } else {
                        last_toucher(prods, k as int, q)
                    }),
                decreases nops - j,
            {
                let q = self.products[k].operators[j].qubit;
                proof {
                    assert(prods[k as int].operators@[j as int].qubit < nq);
                    assert(!touches_prefix(prods[k as int], j as int, q)) by {
                        if touches_prefix(prods[k as int], j as int, q) {
                            let i = choose|i: int| 0 <= i < j && #[trigger] prods[k as int].operators@[i].qubit == q;
                            assert(prods[k as int].operators@[i].qubit != prods[k as int].operators@[j as int].qubit);
                        }
                    }
                    lemma_last_toucher_bounds(prods, k as int, q);
                }
                let current_id = current_pps[q as usize];
                if current_id != -1 {
                    relationships.push((k as i32, current_id));
                }
                current_pps.set(q as usize, k as i32);
                proof {
                    assert forall|q2: u16| q2 < nq implies current_pps@[q2 as int] == (if touches_prefix(prods[k as int], j + 1, q2) {
                        k as int
                    } else {
                        last_toucher(prods, k as int, q2)
                    }) by {
                        if q2 == q {
                            assert(prods[k as int].operators@[j as int].qubit == q2);
                        } else {
                            if touches_prefix(prods[k as int], j + 1, q2) {
                                let i = choose|i: int| 0 <= i < j + 1 && #[trigger] prods[k as int].operators@[i].qubit == q2;
                                assert(i < j);
                            }
                            if touches_prefix(prods[k as int], j as int, q2) {
                                let i = choose|i: int| 0 <= i < j && #[trigger] prods[k as int].operators@[i].qubit == q2;
                                assert(prods[k as int].operators@[i].qubit == q2);
                            }
                        }
                    }
                }
                j += 1;
            }
            proof {
                assert forall|q: u16| q < nq implies current_pps@[q as int] == last_toucher(prods, k + 1, q) by {
                    if touches_prefix(prods[k as int], nops as int, q) {
                        let i = choose|i: int| 0 <= i < nops && #[trigger] prods[k as int].operators@[i].qubit == q;
                        assert(touches(prods[k as int], q));
                    }
                    if touches(prods[k as int], q) {
                        let i = choose|i: int| 0 <= i < prods[k as int].operators@.len() && #[trigger] prods[k as int].operators@[i].qubit == q;
                        assert(touches_prefix(prods[k as int], nops as int, q));
                    }
                }
            }
            k += 1;
        }
        let ghost rels = relationships@;
        assert(rels == all_relations(prods));
        proof {
            lemma_relations_in_range(prods, prods.len() as int, 0);
        }
        let mut r: usize = 0;
        while r < relationships.len()
            invariant
                r <= rels.len(),
                relationships@ == rels,
                rels == all_relations(prods),
                forall|i: int| 0 <= i < rels.len() ==> 0 <= (#[trigger] rels[i]).0 < prods.len() && 0 <= rels[i].1 < prods.len(),
                self.products@.len() == prods.len(),
                self.num_qubits == old(self).num_qubits,
                self.circuit_fname == old(self).circuit_fname,
                prods == old(self).products@,
                forall|c: int| 0 <= c < prods.len() ==> {
                    let o = #[trigger] prods[c];
                    let f = self.products@[c];
                    &&& f.operators == o.operators
                    &&& f.id == o.id
                    &&& f.gate_type == o.gate_type
                    &&& f.max_qubit == o.max_qubit
                    &&& f.parents@ == o.parents@ + parents_from(rels.subrange(0, r as int), c)
                    &&& f.children@ == o.children@ + children_from(rels.subrange(0, r as int), c)
                },
            decreases rels.len() - r,
        {
            let (child_id, parent_id) = relationships[r];
            let ghost before = self.products@;
            self.products[child_id as usize].parents.push(parent_id);
            self.products[parent_id as usize].children.push(child_id);
            proof {
                let sub = rels.subrange(0, r + 1);
                assert(sub.drop_last() =~= rels.subrange(0, r as int));
                assert(sub.last() == (child_id, parent_id));
                assert forall|c: int| 0 <= c < prods.len() implies {
                    let o = #[trigger] prods[c];
                    let f = self.products@[c];
                    &&& f.operators == o.operators
                    &&& f.id == o.id
                    &&& f.gate_type == o.gate_type
                    &&& f.max_qubit == o.max_qubit
                    &&& f.parents@ == o.parents@ + parents_from(sub, c)
                    &&& f.children@ == o.children@ + children_from(sub, c)
                } by {
                    let o = prods[c];
                    assert(before[c].parents@ == o.parents@ + parents_from(rels.subrange(0, r as int), c));
                    assert(before[c].children@ == o.children@ + children_from(rels.subrange(0, r as int), c));
                    if c == child_id as int {
                        assert(o.parents@ + parents_from(rels.subrange(0, r as int), c).push(parent_id)
                            =~= (o.parents@ + parents_from(rels.subrange(0, r as int), c)).push(parent_id));
                    }
                    if c == parent_id as int {
                        assert(o.children@ + children_from(rels.subrange(0, r as int), c).push(child_id)
                            =~= (o.children@ + children_from(rels.subrange(0, r as int), c)).push(child_id));
                    }
                }
            }
            r += 1;
        }
        assert(rels.subrange(0, rels.len() as int) =~= rels);
    }
}

/// Every relation names products in range, the parent before the child.
proof fn lemma_relations_in_range(prods: Seq<PauliProduct>, k: int, j: int)
    requires
        0 <= k <= prods.len(),
        k < prods.len() ==> 0 <= j <= prods[k].operators@.len(),
        k == prods.len() ==> j == 0,
        prods.len() < i32::MAX,
    ensures
        forall|i: int| 0 <= i < relations_upto(prods, k, j).len() ==> {
            let r = #[trigger] relations_upto(prods, k, j)[i];
            0 <= r.1 < r.0 < prods.len()
        },
    decreases k, j,
{
    if j > 0 {
        lemma_relations_in_range(prods, k, j - 1);
        let q = prods[k].operators@[j - 1].qubit;
        lemma_last_toucher_bounds(prods, k, q);
        let prev = relations_upto(prods, k, j - 1);
        match op_relation(prods, k, j - 1) {
            Some(r) => {
                assert forall|i: int| 0 <= i < prev.push(r).len() implies {
                    let x = #[trigger] prev.push(r)[i];
                    0 <= x.1 < x.0 < prods.len()
                } by {
                    if i < prev.len() {
                        assert(prev.push(r)[i] == prev[i]);
                    } else {
                        let t = last_toucher(prods, k, q);
                        assert(r == (k as i32, t as i32));
                        assert(0 <= t < k);
                        assert((k as i32) as int == k);
                        assert((t as i32) as int == t);
                    }
                }
                assert(relations_upto(prods, k, j) == prev.push(r));
            },
            None => {
                assert(relations_upto(prods, k, j) == prev);
            },
        }
    } else if k > 0 {
        lemma_relations_in_range(prods, k - 1, prods[k - 1].operators@.len() as int);
        assert(relations_upto(prods, k, j) == relations_upto(prods, k - 1, prods[k - 1].operators@.len() as int));
    }
}

/// Number of entries among the first `i` of `s` equal to `x`.
pub open spec fn count_prefix(s: Seq<i32>, x: int, i: int) -> nat
    decreases i,
{
    if i <= 0 || i > s.len() {
        0
    } else {
        count_prefix(s, x, i - 1) + (if s[i - 1] as int == x { 1nat } else { 0nat })
    }
}

/// Number of entries of `s` equal to `x`.
pub open spec fn count_in(s: Seq<i32>, x: int) -> nat {
    count_prefix(s, x, s.len() as int)
}

/// The dependency lists are consistent: parents come before their child,
/// children are in range, and `c` lists `p` as a parent exactly as often as
/// `p` lists `c` as a child.
pub open spec fn deps_wf(prods: Seq<PauliProduct>) -> bool {
    &&& prods.len() < i32::MAX
    &&& forall|c: int, i: int| 0 <= c < prods.len() && 0 <= i < prods[c].parents@.len()
        ==> 0 <= #[trigger] prods[c].parents@[i] < c
    &&& forall|p: int, i: int| 0 <= p < prods.len() && 0 <= i < prods[p].children@.len()
        ==> 0 <= #[trigger] prods[p].children@[i] < prods.len()
    &&& forall|p: int, c: int| 0 <= p < prods.len() && 0 <= c < prods.len()
        ==> count_in(#[trigger] prods[p].children@, c) == count_in(#[trigger] prods[c].parents@, p)
}

/// The layer of product `c`: 0 without parents, else one more than its
/// deepest parent.
pub open spec fn depth(prods: Seq<PauliProduct>, c: int) -> nat
    decreases c, prods[c].parents@.len() + 1,
{
    if 0 <= c < prods.len() {
        max_parent_depth(prods, c, prods[c].parents@.len() as int)
    } else {
        0
    }
}

/// One more than the deepest of the first `i` parents of `c` (0 for none).
pub open spec fn max_parent_depth(prods: Seq<PauliProduct>, c: int, i: int) -> nat
    decreases c, i,
{
    if i <= 0 || !(0 <= c < prods.len()) || i > prods[c].parents@.len() {
        0
    } else {
        let p = prods[c].parents@[i - 1] as int;
        let d: nat = if 0 <= p < c { depth(prods, p) + 1 } else { 0 };
        let m = max_parent_depth(prods, c, i - 1);
        if d > m { d } else { m }
    }
}

/// How many parent entries of `c` lie at depth `k` or more.
pub open spec fn deep_parents(prods: Seq<PauliProduct>, c: int, k: nat, i: int) -> nat
    decreases i,
{
    if i <= 0 || i > prods[c].parents@.len() {
        0
    } else {
        deep_parents(prods, c, k, i - 1) + (if depth(prods, prods[c].parents@[i - 1] as int) >= k { 1nat } else { 0nat })
    }
}

/// How many parent entries of `c` lie exactly at depth `k`.
pub open spec fn level_parents(prods: Seq<PauliProduct>, c: int, k: nat, i: int) -> nat
    decreases i,
{
    if i <= 0 || i > prods[c].parents@.len() {
        0
    } else {
        level_parents(prods, c, k, i - 1) + (if depth(prods, prods[c].parents@[i - 1] as int) == k { 1nat } else { 0nat })
    }
}

proof fn lemma_count_prefix_push(s: Seq<i32>, y: i32, x: int, i: int)
    requires
        0 <= i <= s.len(),
    ensures
        count_prefix(s.push(y), x, i) == count_prefix(s, x, i),
    decreases i,
{
    if i > 0 {
        lemma_count_prefix_push(s, y, x, i - 1);
    }
}

pub(crate) proof fn lemma_count_in_push(s: Seq<i32>, y: i32, x: int)
    ensures
        count_in(s.push(y), x) == count_in(s, x) + (if y as int == x { 1nat } else { 0nat }),
{
    lemma_count_prefix_push(s, y, x, s.len() as int);
}

/// The relations give `c` the parent `p` exactly as often as they give `p` the child `c`.
proof fn lemma_relations_consistent(rels: Seq<(i32, i32)>, p: int, c: int)
    ensures
        count_in(children_from(rels, p), c) == count_in(parents_from(rels, c), p),
    decreases rels.len(),
{
    if rels.len() > 0 {
        lemma_relations_consistent(rels.drop_last(), p, c);
        let l = rels.last();
        let pc = parents_from(rels.drop_last(), c);
        let cp = children_from(rels.drop_last(), p);
        if l.0 as int == c {
            lemma_count_in_push(pc, l.1, p);
        }
        if l.1 as int == p {
            lemma_count_in_push(cp, l.0, c);
        }
    }
}

/// Some relation links child `c` to parent `p`.
pub open spec fn in_rels(rels: Seq<(i32, i32)>, c: int, p: int) -> bool {
    exists|k: int| 0 <= k < rels.len() && (#[trigger] rels[k]).0 as int == c && rels[k].1 as int == p
}

/// Parents given by the relations of `c` come from relations `(c, p)`.
proof fn lemma_parents_from_elems(rels: Seq<(i32, i32)>, c: int)
    ensures
        forall|i: int| 0 <= i < parents_from(rels, c).len() ==> in_rels(rels, c, #[trigger] parents_from(rels, c)[i] as int),
    decreases rels.len(),
{
    if rels.len() > 0 {
        let d = rels.drop_last();
        lemma_parents_from_elems(d, c);
        let prev = parents_from(d, c);
        assert forall|i: int| 0 <= i < parents_from(rels, c).len() implies in_rels(rels, c, #[trigger] parents_from(rels, c)[i] as int) by {
            if i < prev.len() {
                assert(parents_from(rels, c)[i] == prev[i]);
                assert(in_rels(d, c, prev[i] as int));
                let k = choose|k: int| 0 <= k < d.len() && (#[trigger] d[k]).0 as int == c && d[k].1 as int == prev[i] as int;
                assert(rels[k] == d[k]);
            } else {
                assert(parents_from(rels, c)[i] == rels[rels.len() - 1].1);
                assert(rels[rels.len() - 1].0 as int == c);
            }
        }
    }
}

/// Children given by the relations of `p` come from relations `(c, p)`.
proof fn lemma_children_from_elems(rels: Seq<(i32, i32)>, p: int)
    ensures
        forall|i: int| 0 <= i < children_from(rels, p).len() ==> in_rels(rels, #[trigger] children_from(rels, p)[i] as int, p),
    decreases rels.len(),
{
    if rels.len() > 0 {
        let d = rels.drop_last();
        lemma_children_from_elems(d, p);
        let prev = children_from(d, p);
        assert forall|i: int| 0 <= i < children_from(rels, p).len() implies in_rels(rels, #[trigger] children_from(rels, p)[i] as int, p) by {
            if i < prev.len() {
                assert(children_from(rels, p)[i] == prev[i]);
                assert(in_rels(d, prev[i] as int, p));
                let k = choose|k: int| 0 <= k < d.len() && (#[trigger] d[k]).0 as int == prev[i] as int && d[k].1 as int == p;
                assert(rels[k] == d[k]);
            } else {
                assert(children_from(rels, p)[i] == rels[rels.len() - 1].0);
                assert(rels[rels.len() - 1].1 as int == p);
            }
        }
    }
}

proof fn lemma_count_prefix_append(a: Seq<i32>, b: Seq<i32>, x: int, i: int)
    requires
        0 <= i <= b.len(),
    ensures
        count_prefix(a + b, x, a.len() + i) == count_in(a, x) + count_prefix(b, x, i),
    decreases i,
{
    if i > 0 {
        lemma_count_prefix_append(a, b, x, i - 1);
        assert((a + b)[a.len() + i - 1] == b[i - 1]);
    } else {
        lemma_count_prefix_prefix(a, b, x, a.len() as int);
    }
}

proof fn lemma_count_prefix_prefix(a: Seq<i32>, b: Seq<i32>, x: int, i: int)
    requires
        0 <= i <= a.len(),
    ensures
        count_prefix(a + b, x, i) == count_prefix(a, x, i),
    decreases i,
{
    if i > 0 {
        lemma_count_prefix_prefix(a, b, x, i - 1);
        assert((a + b)[i - 1] == a[i - 1]);
    }
}

/// Dependencies freshly generated on products without any are consistent.
proof fn lemma_generated_deps_wf(old_prods: Seq<PauliProduct>, prods: Seq<PauliProduct>, nq: int)
    requires
        products_wf(old_prods, nq),
        prods.len() == old_prods.len(),
        forall|k: int| 0 <= k < prods.len() ==> (#[trigger] old_prods[k]).parents@.len() == 0 && old_prods[k].children@.len() == 0,
        forall|k: int| 0 <= k < prods.len() ==> {
            let o = #[trigger] old_prods[k];
            let f = prods[k];
            &&& f.parents@ == o.parents@ + parents_from(all_relations(old_prods), k)
            &&& f.children@ == o.children@ + children_from(all_relations(old_prods), k)
        },
    ensures
        deps_wf(prods),
{
    let rels = all_relations(old_prods);
    lemma_relations_in_range(old_prods, old_prods.len() as int, 0);
    assert forall|c: int, i: int| 0 <= c < prods.len() && 0 <= i < prods[c].parents@.len()
        implies 0 <= #[trigger] prods[c].parents@[i] < c by {
        assert(old_prods[c].parents@.len() == 0);
        assert(prods[c].parents@ =~= parents_from(rels, c));
        lemma_parents_from_elems(rels, c);
        assert(in_rels(rels, c, parents_from(rels, c)[i] as int));
        let k = choose|k: int| 0 <= k < rels.len() && (#[trigger] rels[k]).0 as int == c && rels[k].1 as int == parents_from(rels, c)[i] as int;
        assert(0 <= rels[k].1 < rels[k].0 < old_prods.len());
    }
    assert forall|p: int, i: int| 0 <= p < prods.len() && 0 <= i < prods[p].children@.len()
        implies 0 <= #[trigger] prods[p].children@[i] < prods.len() by {
        assert(old_prods[p].children@.len() == 0);
        assert(prods[p].children@ =~= children_from(rels, p));
        lemma_children_from_elems(rels, p);
        assert(in_rels(rels, children_from(rels, p)[i] as int, p));
        let k = choose|k: int| 0 <= k < rels.len() && (#[trigger] rels[k]).0 as int == children_from(rels, p)[i] as int && rels[k].1 as int == p;
        assert(0 <= rels[k].1 < rels[k].0 < old_prods.len());
    }
    assert forall|p: int, c: int| 0 <= p < prods.len() && 0 <= c < prods.len()
        implies count_in(#[trigger] prods[p].children@, c) == count_in(#[trigger] prods[c].parents@, p) by {
        assert(old_prods[c].parents@.len() == 0);
        assert(old_prods[p].children@.len() == 0);
        assert(prods[c].parents@ =~= parents_from(rels, c));
        assert(prods[p].children@ =~= children_from(rels, p));
        lemma_relations_consistent(rels, p, c);
    }
}

/// The parents of each product come before it.
pub open spec fn parents_before(prods: Seq<PauliProduct>) -> bool {
    forall|c: int, i: int| 0 <= c < prods.len() && 0 <= i < prods[c].parents@.len()
        ==> 0 <= #[trigger] prods[c].parents@[i] < c
}

proof fn lemma_mpd(prods: Seq<PauliProduct>, c: int, i: int)
    requires
        parents_before(prods),
        0 <= c < prods.len(),
        0 <= i <= prods[c].parents@.len(),
    ensures
        forall|j: int| 0 <= j < i ==> depth(prods, #[trigger] prods[c].parents@[j] as int) + 1 <= max_parent_depth(prods, c, i),
        i > 0 ==> exists|j: int| 0 <= j < i && max_parent_depth(prods, c, i) == depth(prods, #[trigger] prods[c].parents@[j] as int) + 1,
        i == 0 ==> max_parent_depth(prods, c, i) == 0,
    decreases i,
{
    if i > 0 {
        lemma_mpd(prods, c, i - 1);
        let p = prods[c].parents@[i - 1] as int;
        assert(0 <= p < c);
        if i - 1 > 0 {
            let j0 = choose|j: int| 0 <= j < i - 1 && max_parent_depth(prods, c, i - 1) == depth(prods, #[trigger] prods[c].parents@[j] as int) + 1;
            if max_parent_depth(prods, c, i) != depth(prods, p) + 1 {
                assert(max_parent_depth(prods, c, i) == depth(prods, prods[c].parents@[j0] as int) + 1);
            }
        }
    }
}

/// A product lies in a later layer than each of its parents.
pub proof fn lemma_depth_parent(prods: Seq<PauliProduct>, c: int, j: int)
    requires
        parents_before(prods),
        0 <= c < prods.len(),
        0 <= j < prods[c].parents@.len(),
    ensures
        depth(prods, prods[c].parents@[j] as int) < depth(prods, c),
{
    lemma_mpd(prods, c, prods[c].parents@.len() as int);
}

/// A product at depth d > 0 has a parent at depth d - 1.
proof fn lemma_depth_witness(prods: Seq<PauliProduct>, c: int)
    requires
        parents_before(prods),
        0 <= c < prods.len(),
        depth(prods, c) > 0,
    ensures
        exists|j: int| 0 <= j < prods[c].parents@.len() && depth(prods, #[trigger] prods[c].parents@[j] as int) + 1 == depth(prods, c),
{
    lemma_mpd(prods, c, prods[c].parents@.len() as int);
}

/// A product's depth is at most its index.
proof fn lemma_depth_bound(prods: Seq<PauliProduct>, c: int)
    requires
        parents_before(prods),
        0 <= c < prods.len(),
    ensures
        depth(prods, c) <= c,
    decreases c,
{
    if depth(prods, c) > 0 {
        lemma_depth_witness(prods, c);
        let j = choose|j: int| 0 <= j < prods[c].parents@.len() && depth(prods, #[trigger] prods[c].parents@[j] as int) + 1 == depth(prods, c);
        let p = prods[c].parents@[j] as int;
        lemma_depth_bound(prods, p);
    }
}

/// If some product lies at depth k or deeper, some product lies at exactly depth k.
proof fn lemma_depth_level_exists(prods: Seq<PauliProduct>, c: int, k: nat)
    requires
        parents_before(prods),
        0 <= c < prods.len(),
        depth(prods, c) >= k,
    ensures
        exists|x: int| 0 <= x < prods.len() && depth(prods, x) == k,
    decreases depth(prods, c) - k,
{
    if depth(prods, c) > k {
        lemma_depth_witness(prods, c);
        let j = choose|j: int| 0 <= j < prods[c].parents@.len() && depth(prods, #[trigger] prods[c].parents@[j] as int) + 1 == depth(prods, c);
        lemma_depth_level_exists(prods, prods[c].parents@[j] as int, k);
    }
}

proof fn lemma_deep_level(prods: Seq<PauliProduct>, c: int, k: nat, i: int)
    requires
        0 <= c < prods.len(),
        0 <= i <= prods[c].parents@.len(),
    ensures
        deep_parents(prods, c, k, i) == deep_parents(prods, c, k + 1, i) + level_parents(prods, c, k, i),
        (deep_parents(prods, c, k, i) == 0) <==> (forall|j: int| 0 <= j < i ==> depth(prods, #[trigger] prods[c].parents@[j] as int) < k),
        (level_parents(prods, c, k, i) > 0) <==> (exists|j: int| 0 <= j < i && depth(prods, #[trigger] prods[c].parents@[j] as int) == k),
        deep_parents(prods, c, 0, i) == i,
    decreases i,
{
    if i > 0 {
        lemma_deep_level(prods, c, k, i - 1);
        assert((exists|j: int| 0 <= j < i && depth(prods, #[trigger] prods[c].parents@[j] as int) == k)
            <==> ((exists|j: int| 0 <= j < i - 1 && depth(prods, #[trigger] prods[c].parents@[j] as int) == k)
                || depth(prods, prods[c].parents@[i - 1] as int) == k));
    }
}

/// How a product's depth shows in the counts of its parents by depth.
proof fn lemma_depth_by_counts(prods: Seq<PauliProduct>, c: int, k: nat)
    requires
        parents_before(prods),
        0 <= c < prods.len(),
    ensures
        (depth(prods, c) <= k) <==> deep_parents(prods, c, k, prods[c].parents@.len() as int) == 0,
        (depth(prods, c) == k + 1) <==> (deep_parents(prods, c, k + 1, prods[c].parents@.len() as int) == 0
            && level_parents(prods, c, k, prods[c].parents@.len() as int) > 0),
{
    let n = prods[c].parents@.len() as int;
    lemma_mpd(prods, c, n);
    lemma_deep_level(prods, c, k, n);
    lemma_deep_level(prods, c, k + 1, n);
}

/// Whether `x` occurs in `rs`.
pub open spec fn in_usizes(rs: Seq<usize>, x: int) -> bool {
    exists|j: int| 0 <= j < rs.len() && #[trigger] rs[j] as int == x
}

/// How many of the first `i` entries of `ps` occur in `rs`.
pub open spec fn occ_member(ps: Seq<i32>, rs: Seq<usize>, i: int) -> nat
    decreases i,
{
    if i <= 0 || i > ps.len() {
        0
    } else {
        occ_member(ps, rs, i - 1) + (if in_usizes(rs, ps[i - 1] as int) { 1nat } else { 0nat })
    }
}

/// Sum over the first `r` entries of `rs` of how often `c` is their child.
pub open spec fn child_counts(prods: Seq<PauliProduct>, rs: Seq<usize>, c: int, r: int) -> nat
    decreases r,
{
    if r <= 0 || r > rs.len() {
        0
    } else {
        child_counts(prods, rs, c, r - 1) + count_in(prods[rs[r - 1] as int].children@, c)
    }
}

proof fn lemma_occ_member_push(ps: Seq<i32>, rs: Seq<usize>, x: usize, i: int)
    requires
        !in_usizes(rs, x as int),
        0 <= i <= ps.len(),
    ensures
        occ_member(ps, rs.push(x), i) == occ_member(ps, rs, i) + count_prefix(ps, x as int, i),
    decreases i,
{
    if i > 0 {
        lemma_occ_member_push(ps, rs, x, i - 1);
        let e = ps[i - 1] as int;
        if in_usizes(rs.push(x), e) {
            let j = choose|j: int| 0 <= j < rs.push(x).len() && #[trigger] rs.push(x)[j] as int == e;
            if j < rs.len() {
                assert(rs[j] as int == e);
            }
        }
        if in_usizes(rs, e) {
            let j = choose|j: int| 0 <= j < rs.len() && #[trigger] rs[j] as int == e;
            assert(rs.push(x)[j] as int == e);
        }
        if e == x as int {
            assert(rs.push(x)[rs.len() as int] as int == e);
        }
    }
}

proof fn lemma_occ_member_le(ps: Seq<i32>, rs: Seq<usize>, i: int)
    ensures
        occ_member(ps, rs, i) <= (if 0 <= i <= ps.len() { i } else { 0 }),
    decreases i,
{
    if i > 0 && i <= ps.len() {
        lemma_occ_member_le(ps, rs, i - 1);
    }
}

pub(crate) proof fn lemma_count_prefix_le(s: Seq<i32>, x: int, i: int)
    requires
        0 <= i <= s.len(),
    ensures
        count_prefix(s, x, i) <= count_in(s, x),
    decreases s.len() - i,
{
    if i < s.len() {
        lemma_count_prefix_le(s, x, i + 1);
    }
}

/// For distinct `rs`, summing how often `c` is a child of each of the first
/// `r` entries counts the parents of `c` among those entries.
proof fn lemma_child_counts(prods: Seq<PauliProduct>, rs: Seq<usize>, c: int, r: int)
    requires
        deps_wf(prods),
        0 <= c < prods.len(),
        0 <= r <= rs.len(),
        forall|j: int| 0 <= j < rs.len() ==> (#[trigger] rs[j]) < prods.len(),
        forall|a: int, b: int| 0 <= a < b < rs.len() ==> rs[a] != rs[b],
    ensures
        child_counts(prods, rs, c, r) == occ_member(prods[c].parents@, rs.subrange(0, r), prods[c].parents@.len() as int),
    decreases r,
{
    let ps = prods[c].parents@;
    if r == 0 {
        lemma_occ_member_empty(ps, rs.subrange(0, 0), ps.len() as int);
    } else {
        lemma_child_counts(prods, rs, c, r - 1);
        let x = rs[r - 1];
        assert(rs.subrange(0, r) =~= rs.subrange(0, r - 1).push(x));
        assert(!in_usizes(rs.subrange(0, r - 1), x as int)) by {
            if in_usizes(rs.subrange(0, r - 1), x as int) {
                let j = choose|j: int| 0 <= j < rs.subrange(0, r - 1).len() && #[trigger] rs.subrange(0, r - 1)[j] as int == x as int;
                assert(rs[j] == rs[r - 1]);
            }
        }
        lemma_occ_member_push(ps, rs.subrange(0, r - 1), x, ps.len() as int);
        assert(count_in(prods[x as int].children@, c) == count_in(ps, x as int));
    }
}

proof fn lemma_occ_member_empty(ps: Seq<i32>, rs: Seq<usize>, i: int)
    requires
        rs.len() == 0,
    ensures
        occ_member(ps, rs, i) == 0,
    decreases i,
{
    if i > 0 && i <= ps.len() {
        lemma_occ_member_empty(ps, rs, i - 1);
    }
}

/// When `rs` holds exactly the products at depth `k`, the parents of `c`
/// found in `rs` are those at depth `k`.
proof fn lemma_occ_member_level(prods: Seq<PauliProduct>, rs: Seq<usize>, c: int, k: nat, i: int)
    requires
        deps_wf(prods),
        0 <= c < prods.len(),
        0 <= i <= prods[c].parents@.len(),
        forall|x: int| 0 <= x < prods.len() ==> (in_usizes(rs, x) <==> depth(prods, x) == k),
    ensures
        occ_member(prods[c].parents@, rs, i) == level_parents(prods, c, k, i),
    decreases i,
{
    if i > 0 {
        lemma_occ_member_level(prods, rs, c, k, i - 1);
        let p = prods[c].parents@[i - 1];
        assert(0 <= p < c);
    }
}

/// `l` lists, once each, exactly the products at depth `k`.
pub open spec fn is_layer(prods: Seq<PauliProduct>, l: Seq<usize>, k: nat) -> bool {
    &&& forall|a: int, b: int| 0 <= a < b < l.len() ==> l[a] != l[b]
    &&& forall|j: int| 0 <= j < l.len() ==> (#[trigger] l[j]) < prods.len() && depth(prods, l[j] as int) == k
    &&& forall|x: int| 0 <= x < prods.len() && depth(prods, x) == k ==> in_usizes(l, x)
}

/// The deepest layer among the first `m` products.
pub open spec fn max_depth_upto(prods: Seq<PauliProduct>, m: int) -> nat
    decreases m,
{
    if m <= 0 {
        0
    } else {
        let d = depth(prods, m - 1);
        let r = max_depth_upto(prods, m - 1);
        if d > r { d } else { r }
    }
}

/// The number of layers: one more than the deepest product, 0 for no products.
pub open spec fn num_layers(prods: Seq<PauliProduct>) -> nat {
    if prods.len() == 0 { 0 } else { max_depth_upto(prods, prods.len() as int) + 1 }
}

proof fn lemma_max_depth(prods: Seq<PauliProduct>, m: int, k: nat)
    requires
        0 <= m <= prods.len(),
    ensures
        forall|x: int| 0 <= x < m ==> depth(prods, x) <= max_depth_upto(prods, m),
        m > 0 ==> exists|x: int| 0 <= x < m && depth(prods, x) == max_depth_upto(prods, m),
    decreases m,
{
    if m > 0 {
        lemma_max_depth(prods, m - 1, k);
    }
}

/// The layer count is `k` when every product lies above depth `k` and, for
/// `k > 0`, some product lies at depth `k - 1`.
proof fn lemma_num_layers(prods: Seq<PauliProduct>, k: nat)
    requires
        forall|x: int| 0 <= x < prods.len() ==> depth(prods, x) < k,
        k > 0 ==> exists|x: int| 0 <= x < prods.len() && depth(prods, x) == k - 1,
        k == 0 ==> prods.len() == 0,
    ensures
        num_layers(prods) == k,
{
    if prods.len() > 0 {
        lemma_max_depth(prods, prods.len() as int, k);
        let x = choose|x: int| 0 <= x < prods.len() && depth(prods, x) == k - 1;
        assert(depth(prods, x) <= max_depth_upto(prods, prods.len() as int));
    }
}

proof fn lemma_child_counts_mono(prods: Seq<PauliProduct>, rs: Seq<usize>, c: int, r: int, t: int)
    requires
        0 <= r <= t <= rs.len(),
    ensures
        child_counts(prods, rs, c, r) <= child_counts(prods, rs, c, t),
    decreases t - r,
{
    if r < t {
        lemma_child_counts_mono(prods, rs, c, r, t - 1);
    }
}

impl Circuit {
    /// The layers of the circuit by Kahn's topological sort: each layer holds
    /// the products all of whose parents lie in earlier layers, so product `c`
    /// lands in layer `depth(c)`.
    pub fn get_layers(&self) -> (layers: Vec<Vec<usize>>)
        requires
            deps_wf(self.products@),
        ensures
            layers@.len() == num_layers(self.products@),
            forall|j: int| 0 <= j < layers@.len() ==> is_layer(self.products@, (#[trigger] layers@[j])@, j as nat),
    {
        let ghost prods = self.products@;
        let n = self.products.len();
        let mut in_degrees: Vec<usize> = Vec::new();
        let mut ready: Vec<usize> = Vec::new();
        let mut c: usize = 0;
        while c < n
            invariant
                c <= n,
                n == prods.len(),
                prods == self.products@,
                deps_wf(prods),
                in_degrees@.len() == c,
                forall|x: int| 0 <= x < c ==> in_degrees@[x] == deep_parents(prods, x, 0, prods[x].parents@.len() as int),
                forall|a: int, b: int| 0 <= a < b < ready@.len() ==> ready@[a] < ready@[b],
                forall|j: int| 0 <= j < ready@.len() ==> (#[trigger] ready@[j]) < c && depth(prods, ready@[j] as int) == 0,
                forall|x: int| 0 <= x < c && depth(prods, x) == 0 ==> in_usizes(ready@, x),
            decreases n - c,
        {
            let deg = self.products[c].parents.len();
            proof {
                lemma_deep_level(prods, c as int, 0, deg as int);
                lemma_depth_by_counts(prods, c as int, 0);
            }
            in_degrees.push(deg);
            let ghost old_ready = ready@;
            if deg == 0 {
                ready.push(c);
                proof {
                    assert(ready@[ready@.len() - 1] as int == c as int);
                }
            }
            proof {
                assert forall|x: int| 0 <= x < c + 1 && depth(prods, x) == 0 implies in_usizes(ready@, x) by {
                    if x < c {
                        assert(in_usizes(old_ready, x));
                        let j = choose|j: int| 0 <= j < old_ready.len() && #[trigger] old_ready[j] as int == x;
                        assert(ready@[j] == old_ready[j]);
                    }
                }
            }
            c += 1;
        }
        proof {
            assert forall|x: int| 0 <= x < n implies in_degrees@[x] == deep_parents(prods, x, 0, prods[x].parents@.len() as int) by {}
        }
        let mut layers: Vec<Vec<usize>> = Vec::new();
        let mut k: usize = 0;
        while ready.len() > 0
            invariant
                n == prods.len(),
                prods == self.products@,
                deps_wf(prods),
                layers@.len() == k,
                forall|j: int| 0 <= j < k ==> is_layer(prods, (#[trigger] layers@[j])@, j as nat),
                k > 0 ==> layers@[k - 1]@.len() > 0,
                is_layer(prods, ready@, k as nat),
                in_degrees@.len() == n,
                forall|x: int| 0 <= x < n ==> #[trigger] in_degrees@[x] == deep_parents(prods, x, k as nat, prods[x].parents@.len() as int),
            decreases n - k,
        {
            proof {
                let x = ready@[0] as int;
                lemma_depth_bound(prods, x);
            }
            let ghost rd = ready@;
            proof {
                assert forall|x: int| 0 <= x < n implies #[trigger] in_degrees@[x] + child_counts(prods, rd, x, 0)
                    == deep_parents(prods, x, (k + 1) as nat, prods[x].parents@.len() as int)
                        + level_parents(prods, x, k as nat, prods[x].parents@.len() as int) by {
                    lemma_deep_level(prods, x, k as nat, prods[x].parents@.len() as int);
                }
            }
            let mut next_ready: Vec<usize> = Vec::new();
            let mut r: usize = 0;
            while r < ready.len()
                invariant
                    n == prods.len(),
                    prods == self.products@,
                    deps_wf(prods),
                    rd == ready@,
                    is_layer(prods, rd, k as nat),
                    r <= rd.len(),
                    in_degrees@.len() == n,
                    forall|a: int, b: int| 0 <= a < b < next_ready@.len() ==> next_ready@[a] != next_ready@[b],
                    forall|j: int| 0 <= j < next_ready@.len() ==> (#[trigger] next_ready@[j]) < n,
                    forall|x: int| 0 <= x < n ==> (in_usizes(next_ready@, x) <==> (
                        level_parents(prods, x, k as nat, prods[x].parents@.len() as int) > 0
                        && child_counts(prods, rd, x, r as int) == level_parents(prods, x, k as nat, prods[x].parents@.len() as int)
                        && deep_parents(prods, x, (k + 1) as nat, prods[x].parents@.len() as int) == 0)),
                    forall|x: int| 0 <= x < n ==> #[trigger] in_degrees@[x] + child_counts(prods, rd, x, r as int)
                        == deep_parents(prods, x, (k + 1) as nat, prods[x].parents@.len() as int)
                            + level_parents(prods, x, k as nat, prods[x].parents@.len() as int),
                    forall|x: int| 0 <= x < n ==> child_counts(prods, rd, x, r as int) <= level_parents(prods, x, k as nat, prods[x].parents@.len() as int),
                decreases rd.len() - r,
            {
                let current = ready[r];
                let nch = self.products[current].children.len();
                let mut s: usize = 0;
                while s < nch
                    invariant
                        n == prods.len(),
                        prods == self.products@,
                        deps_wf(prods),
                        rd == ready@,
                        is_layer(prods, rd, k as nat),
                        r < rd.len(),
                        current == rd[r as int],
                        nch == prods[current as int].children@.len(),
                        s <= nch,
                        in_degrees@.len() == n,
                        forall|a: int, b: int| 0 <= a < b < next_ready@.len() ==> next_ready@[a] != next_ready@[b],
                        forall|j: int| 0 <= j < next_ready@.len() ==> (#[trigger] next_ready@[j]) < n,
                        forall|x: int| 0 <= x < n ==> (in_usizes(next_ready@, x) <==> (
                            level_parents(prods, x, k as nat, prods[x].parents@.len() as int) > 0
                            && child_counts(prods, rd, x, r as int) + count_prefix(prods[current as int].children@, x, s as int)
                                == level_parents(prods, x, k as nat, prods[x].parents@.len() as int)
                            && deep_parents(prods, x, (k + 1) as nat, prods[x].parents@.len() as int) == 0)),
                        forall|x: int| 0 <= x < n ==> #[trigger] in_degrees@[x] + child_counts(prods, rd, x, r as int)
                            + count_prefix(prods[current as int].children@, x, s as int)
                            == deep_parents(prods, x, (k + 1) as nat, prods[x].parents@.len() as int)
                                + level_parents(prods, x, k as nat, prods[x].parents@.len() as int),
                        forall|x: int| 0 <= x < n ==> child_counts(prods, rd, x, r as int) + count_prefix(prods[current as int].children@, x, s as int)
                            <= level_parents(prods, x, k as nat, prods[x].parents@.len() as int),
                    decreases nch - s,
                {
                    let child_id = self.products[current].children[s];
                    let child_idx = child_id as usize;
                    proof {
                        assert(0 <= child_id < n);
                        let x = child_idx as int;
                        lemma_count_prefix_le(prods[current as int].children@, x, s + 1);
                        lemma_child_counts_mono(prods, rd, x, r + 1, rd.len() as int);
                        lemma_child_counts(prods, rd, x, rd.len() as int);
                        assert(rd.subrange(0, rd.len() as int) =~= rd);
                        lemma_occ_member_level(prods, rd, x, k as nat, prods[x].parents@.len() as int);
                        assert(child_counts(prods, rd, x, r + 1) == child_counts(prods, rd, x, r as int) + count_in(prods[current as int].children@, x));
                    }
                    let ghost before = in_degrees@;
                    let ghost old_next = next_ready@;
                    let d = in_degrees[child_idx] - 1;
                    in_degrees.set(child_idx, d);
                    proof {
                        assert forall|x: int| 0 <= x < n implies count_prefix(prods[current as int].children@, x, s + 1)
                            == count_prefix(prods[current as int].children@, x, s as int) + (if x == child_idx as int { 1nat } else { 0nat }) by {}
                    }
                    if d == 0 {
                        proof {
                            assert(!in_usizes(next_ready@, child_idx as int));
                        }
                        next_ready.push(child_idx);
                        proof {
                            assert(next_ready@[next_ready@.len() - 1] as int == child_idx as int);
                        }
                    }
                    proof {
                        assert forall|x: int| 0 <= x < n implies (in_usizes(next_ready@, x) <==> (
                            level_parents(prods, x, k as nat, prods[x].parents@.len() as int) > 0
                            && child_counts(prods, rd, x, r as int) + count_prefix(prods[current as int].children@, x, s + 1)
                                == level_parents(prods, x, k as nat, prods[x].parents@.len() as int)
                            && deep_parents(prods, x, (k + 1) as nat, prods[x].parents@.len() as int) == 0)) by {
                            if x != child_idx as int {
                                if in_usizes(next_ready@, x) {
                                    let j = choose|j: int| 0 <= j < next_ready@.len() && #[trigger] next_ready@[j] as int == x;
                                    if d == 0 {
                                        assert(j < next_ready@.len() - 1);
                                    }
                                    assert(old_next[j] as int == x);
                                }
                                if in_usizes(old_next, x) {
                                    let j = choose|j: int| 0 <= j < old_next.len() && #[trigger] old_next[j] as int == x;
                                    assert(next_ready@[j] as int == x);
                                }
                            } else {
                                if d != 0 && in_usizes(next_ready@, x) {
                                    assert(in_usizes(old_next, x));
                                }
                            }
                        }
                    }
                    s += 1;
                }
                proof {
                    assert forall|x: int| 0 <= x < n implies child_counts(prods, rd, x, r + 1)
                        == child_counts(prods, rd, x, r as int) + count_prefix(prods[current as int].children@, x, nch as int) by {
                        assert(child_counts(prods, rd, x, r + 1) == child_counts(prods, rd, x, r as int) + count_in(prods[rd[r as int] as int].children@, x));
                    }
                    assert forall|x: int| 0 <= x < n implies child_counts(prods, rd, x, r + 1)
                        <= level_parents(prods, x, k as nat, prods[x].parents@.len() as int) by {
                        assert(child_counts(prods, rd, x, r + 1)
                            == child_counts(prods, rd, x, r as int) + count_prefix(prods[current as int].children@, x, nch as int));
                    }
                }
                r += 1;
            }
            proof {
                assert forall|x: int| 0 <= x < n implies child_counts(prods, rd, x, rd.len() as int) == level_parents(prods, x, k as nat, prods[x].parents@.len() as int) by {
                    lemma_child_counts(prods, rd, x, rd.len() as int);
                    assert(rd.subrange(0, rd.len() as int) =~= rd);
                    lemma_occ_member_level(prods, rd, x, k as nat, prods[x].parents@.len() as int);
                }
                assert forall|x: int| 0 <= x < n implies #[trigger] in_degrees@[x] == deep_parents(prods, x, (k + 1) as nat, prods[x].parents@.len() as int) by {}
                assert forall|j: int| 0 <= j < next_ready@.len() implies (#[trigger] next_ready@[j]) < prods.len() && depth(prods, next_ready@[j] as int) == (k + 1) as nat by {
                    let x = next_ready@[j] as int;
                    assert(in_usizes(next_ready@, x));
                    lemma_depth_by_counts(prods, x, k as nat);
                }
                assert forall|x: int| 0 <= x < prods.len() && depth(prods, x) == (k + 1) as nat implies in_usizes(next_ready@, x) by {
                    lemma_depth_by_counts(prods, x, k as nat);
                }
            }
            layers.push(ready);
            ready = next_ready;
            k += 1;
        }
        proof {
            assert forall|x: int| 0 <= x < prods.len() implies depth(prods, x) < k by {
                if depth(prods, x) >= k {
                    lemma_depth_level_exists(prods, x, k as nat);
                    let y = choose|y: int| 0 <= y < prods.len() && depth(prods, y) == k;
                    assert(in_usizes(ready@, y));
                }
            }
            if k > 0 {
                let x = layers@[k - 1]@[0] as int;
                assert(depth(prods, x) == k - 1);
            }
            if k == 0 && prods.len() > 0 {
                assert(depth(prods, 0) < 0);
            }
            lemma_num_layers(prods, k as nat);
        }
        layers
    }
}

/// Number of T products among the first `m`.
pub open spec fn t_count_upto(prods: Seq<PauliProduct>, m: int) -> nat
    decreases m,
{
    if m <= 0 { 0 } else { t_count_upto(prods, m - 1) + (if prods[m - 1].gate_type == GateType::T { 1nat } else { 0nat }) }
}

/// Number of Clifford products among the first `m`.
pub open spec fn clifford_count_upto(prods: Seq<PauliProduct>, m: int) -> nat
    decreases m,
{
    if m <= 0 { 0 } else { clifford_count_upto(prods, m - 1) + (if is_clifford_gate(prods[m - 1].gate_type) { 1nat } else { 0nat }) }
}

/// Some T product lies in layer `k`.
pub open spec fn t_in_layer(prods: Seq<PauliProduct>, k: nat) -> bool {
    exists|x: int| 0 <= x < prods.len() && depth(prods, x) == k && (#[trigger] prods[x]).gate_type == GateType::T
}

/// Number of the first `m` layers that hold a T product.
pub open spec fn t_layer_count(prods: Seq<PauliProduct>, m: int) -> nat
    decreases m,
{
    if m <= 0 { 0 } else { t_layer_count(prods, m - 1) + (if t_in_layer(prods, (m - 1) as nat) { 1nat } else { 0nat }) }
}

/// The products in layer `k`.
pub open spec fn layer_set(prods: Seq<PauliProduct>, k: nat) -> Set<usize> {
    Set::new(|x: usize| (x as int) < prods.len() && depth(prods, x as int) == k)
}

/// The size of the largest of the first `m` layers (0 for none).
pub open spec fn max_layer_size(prods: Seq<PauliProduct>, m: int) -> nat
    decreases m,
{
    if m <= 0 {
        0
    } else {
        let s = layer_set(prods, (m - 1) as nat).len();
        let r = max_layer_size(prods, m - 1);
        if s > r { s } else { r }
    }
}

/// Figures of a circuit's layering.
#[derive(Debug, Clone, Copy, PartialEq, Eq, Structural)]
pub struct CircuitStatistics {
    pub num_products: usize,
    pub num_cliffords: usize,
    pub num_layers: usize,
    pub max_products_per_layer: usize,
}

proof fn lemma_layer_len(prods: Seq<PauliProduct>, l: Seq<usize>, k: nat)
    requires
        is_layer(prods, l, k),
    ensures
        l.len() == layer_set(prods, k).len(),
{
    assert forall|i: int, j: int| 0 <= i < l.len() && 0 <= j < l.len() && i != j implies l[i] != l[j] by {
        if i < j {
            assert(l[i] != l[j]);
        } else {
            assert(l[j] != l[i]);
        }
    }
    assert(l.no_duplicates());
    assert(l.to_set() =~= layer_set(prods, k)) by {
        assert forall|x: usize| l.to_set().contains(x) implies layer_set(prods, k).contains(x) by {
            let j = choose|j: int| 0 <= j < l.len() && l[j] == x;
            assert(l[j] < prods.len());
        }
        assert forall|x: usize| layer_set(prods, k).contains(x) implies l.to_set().contains(x) by {
            assert(in_usizes(l, x as int));
            let j = choose|j: int| 0 <= j < l.len() && #[trigger] l[j] as int == x as int;
            assert(l[j] == x);
        }
    }
    l.unique_seq_to_set();
}

impl Circuit {
    /// The indices of the products without parents, in order.
    pub fn initial_products(&self) -> (r: Vec<usize>)
        ensures
            forall|a: int, b: int| 0 <= a < b < r@.len() ==> r@[a] < r@[b],
            forall|j: int| 0 <= j < r@.len() ==> (#[trigger] r@[j]) < self.products@.len()
                && self.products@[r@[j] as int].parents@.len() == 0,
            forall|x: int| 0 <= x < self.products@.len() && self.products@[x].parents@.len() == 0 ==> in_usizes(r@, x),
    {
        let mut r: Vec<usize> = Vec::new();
        let mut k: usize = 0;
        while k < self.products.len()
            invariant
                k <= self.products@.len(),
                forall|a: int, b: int| 0 <= a < b < r@.len() ==> r@[a] < r@[b],
                forall|j: int| 0 <= j < r@.len() ==> (#[trigger] r@[j]) < k && self.products@[r@[j] as int].parents@.len() == 0,
                forall|x: int| 0 <= x < k && (#[trigger] self.products@[x]).parents@.len() == 0 ==> in_usizes(r@, x),
            decreases self.products@.len() - k,
        {
            let ghost before = r@;
            if self.products[k].parents.len() == 0 {
                r.push(k);
                proof {
                    assert(r@[r@.len() - 1] as int == k as int);
                }
            }
            proof {
                assert forall|x: int| 0 <= x < k + 1 && self.products@[x].parents@.len() == 0 implies in_usizes(r@, x) by {
                    if x < k {
                        assert(in_usizes(before, x));
                        let j = choose|j: int| 0 <= j < before.len() && #[trigger] before[j] as int == x;
                        assert(r@[j] == before[j]);
                    }
                }
            }
            k += 1;
        }
        r
    }

    /// The number of T products, and the number of layers holding one.
    pub fn count_t_stats(&self) -> (r: (usize, usize))
        requires
            deps_wf(self.products@),
        ensures
            r.0 == t_count_upto(self.products@, self.products@.len() as int),
            r.1 == t_layer_count(self.products@, num_layers(self.products@) as int),
    {
        let ghost prods = self.products@;
        let layers = self.get_layers();
        let mut num_t: usize = 0;
        let mut k: usize = 0;
        while k < self.products.len()
            invariant
                k <= prods.len(),
                prods == self.products@,
                num_t == t_count_upto(prods, k as int),
                num_t <= k,
            decreases prods.len() - k,
        {
            if self.products[k].gate_type.is_t() {
                num_t += 1;
            }
            k += 1;
        }
        let mut num_t_layers: usize = 0;
        let mut j: usize = 0;
        while j < layers.len()
            invariant
                j <= layers@.len(),
                prods == self.products@,
                layers@.len() == num_layers(prods),
                forall|i: int| 0 <= i < layers@.len() ==> is_layer(prods, (#[trigger] layers@[i])@, i as nat),
                num_t_layers == t_layer_count(prods, j as int),
                num_t_layers <= j,
            decreases layers@.len() - j,
        {
            let layer = &layers[j];
            proof {
                assert(is_layer(prods, layers@[j as int]@, j as nat));
            }
            let mut found = false;
            let mut i: usize = 0;
            while i < layer.len()
                invariant
                    i <= layer@.len(),
                    prods == self.products@,
                    is_layer(prods, layer@, j as nat),
                    found == exists|a: int| 0 <= a < i && (#[trigger] prods[layer@[a] as int]).gate_type == GateType::T,
                decreases layer@.len() - i,
            {
                if self.products[layer[i]].gate_type.is_t() {
                    found = true;
                }
                i += 1;
            }
            proof {
                if found {
                    let a = choose|a: int| 0 <= a < layer@.len() && (#[trigger] prods[layer@[a] as int]).gate_type == GateType::T;
                    assert(layer@[a] < prods.len() && depth(prods, layer@[a] as int) == j);
                    assert(t_in_layer(prods, j as nat));
                }
                if t_in_layer(prods, j as nat) {
                    let x = choose|x: int| 0 <= x < prods.len() && depth(prods, x) == j as nat && (#[trigger] prods[x]).gate_type == GateType::T;
                    assert(in_usizes(layer@, x));
                    let a = choose|a: int| 0 <= a < layer@.len() && #[trigger] layer@[a] as int == x;
                    assert(prods[layer@[a] as int].gate_type == GateType::T);
                }
            }
            if found {
                num_t_layers += 1;
            }
            j += 1;
        }
        (num_t, num_t_layers)
    }

    /// The circuit's figures: products, Clifford products, layers, and the
    /// size of the largest layer.
    pub fn statistics(&self) -> (r: CircuitStatistics)
        requires
            deps_wf(self.products@),
        ensures
            r.num_products == self.products@.len(),
            r.num_cliffords == clifford_count_upto(self.products@, self.products@.len() as int),
            r.num_layers == num_layers(self.products@),
            r.max_products_per_layer == max_layer_size(self.products@, num_layers(self.products@) as int),
    {
        let ghost prods = self.products@;
        let layers = self.get_layers();
        let mut num_cliffords: usize = 0;
        let mut k: usize = 0;
        while k < self.products.len()
            invariant
                k <= prods.len(),
                prods == self.products@,
                num_cliffords == clifford_count_upto(prods, k as int),
                num_cliffords <= k,
            decreases prods.len() - k,
        {
            if self.products[k].gate_type.is_clifford() {
                num_cliffords += 1;
            }
            k += 1;
        }
        let mut max_products: usize = 0;
        let mut j: usize = 0;
        while j < layers.len()
            invariant
                j <= layers@.len(),
                prods == self.products@,
                layers@.len() == num_layers(prods),
                forall|i: int| 0 <= i < layers@.len() ==> is_layer(prods, (#[trigger] layers@[i])@, i as nat),
                max_products == max_layer_size(prods, j as int),
            decreases layers@.len() - j,
        {
            proof {
                lemma_layer_len(prods, layers@[j as int]@, j as nat);
            }
            if layers[j].len() > max_products {
                max_products = layers[j].len();
            }
            j += 1;
        }
        CircuitStatistics {
            num_products: self.products.len(),
            num_cliffords,
            num_layers: layers.len(),
            max_products_per_layer: max_products,
        }
    }
}

} // verus!
