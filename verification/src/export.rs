//! Building the canonical export record of an optimized system.
//!
//! The record mirrors what proof-system adapters consume: per constraint,
//! each combination as a list of variable ids with fixed-width
//! little-endian coefficient bytes (id `0` is the constant-one wire, id
//! `k+1` the `k`-th system variable); constraints grouped into
//! size-bounded batches; and a header carrying the field maximum, the
//! free-variable-id counter and the public instance ids.  Writing the
//! record anywhere is the caller's I/O.

use vstd::prelude::*;
use vstd::seq_lib::*;
use crate::field::{le_bytes_value, neg_mod, pow256, to_le_bytes};
use crate::lc::{contains_var, lc_wf, Lc, Var, VarType};
use crate::r1cs::{con_mentions, con_wf, live, r1cs_wf, sys_mentions, Constraint, R1cs};

verus! {

/// One linear combination in export form.
#[derive(Debug)]
pub struct ExportLc {
    pub variable_ids: Vec<u64>,
    pub coefficients: Vec<u8>,
}

/// One constraint in export form.
#[derive(Debug)]
pub struct ExportConstraint {
    pub a: ExportLc,
    pub b: ExportLc,
    pub c: ExportLc,
}

/// The export header.
#[derive(Debug)]
pub struct ExportHeader {
    pub field_maximum: Vec<u8>,
    pub free_variable_id: u64,
    pub instance_ids: Vec<u64>,
}

/// The export builder.
#[derive(Clone, Copy, PartialEq, Eq, Structural, Debug)]
pub struct ZkInterface;

/// The per-batch views of a batch list.
pub open spec fn batch_views(r: Seq<Vec<ExportConstraint>>) -> Seq<Seq<ExportConstraint>> {
    r.map_values(|b: Vec<ExportConstraint>| b@)
}

/// The value of the `i`-th `width`-byte chunk.
pub open spec fn chunk_value(bytes: Seq<u8>, i: int, width: int) -> int {
    le_bytes_value(bytes.subrange(i * width, (i + 1) * width))
}

/// The export form of `lc` against the variable order `vars`: the constant
/// first under wire id `0` when nonzero, then every monomial in order,
/// each id pointing at its variable, each coefficient encoded at its
/// chunk.
pub open spec fn export_lc_ok(e: ExportLc, vars: Seq<Var>, lc: Lc, width: int) -> bool {
    let off: int = if lc.constant != 0 {
        1
    } else {
        0
    };
    &&& e.variable_ids@.len() == off + lc.monomials@.len()
    &&& e.coefficients@.len() == (off + lc.monomials@.len()) * width
    &&& (lc.constant != 0 ==> e.variable_ids@[0] == 0 && chunk_value(e.coefficients@, 0, width)
        == lc.constant)
    &&& forall|k: int|
        0 <= k < lc.monomials@.len() ==> {
            let id = #[trigger] e.variable_ids@[off + k];
            &&& 1 <= id <= vars.len()
            &&& vars[id - 1] == lc.monomials@[k].0
            &&& chunk_value(e.coefficients@, off + k, width) == lc.monomials@[k].1
        }
}

/// The export form of a whole constraint.
pub open spec fn export_con_ok(e: ExportConstraint, vars: Seq<Var>, con: Constraint, width: int) -> bool {
    &&& export_lc_ok(e.a, vars, con.a, width)
    &&& export_lc_ok(e.b, vars, con.b, width)
    &&& export_lc_ok(e.c, vars, con.c, width)
}

/// The number of instance (public input) variables.
pub open spec fn count_inst(vars: Seq<Var>) -> int
    decreases vars.len(),
{
    if vars.len() == 0 {
        0
    } else {
        (if vars[0].ty == VarType::Inst {
            1int
        } else {
            0
        }) + count_inst(vars.drop_first())
    }
}

proof fn lemma_count_inst_take_step(vars: Seq<Var>, i: int)
    requires
        0 <= i < vars.len(),
    ensures
        count_inst(vars.take(i + 1)) == count_inst(vars.take(i)) + (if vars[i].ty
            == VarType::Inst {
            1int
        } else {
            0
        }),
    decreases i,
{
    if i == 0 {
        assert(vars.take(1).drop_first() =~= Seq::<Var>::empty());
        assert(vars.take(0) =~= Seq::<Var>::empty());
        assert(vars.take(1)[0] == vars[0]);
    } else {
        assert(vars.take(i + 1).drop_first() =~= vars.drop_first().take(i));
        assert(vars.take(i).drop_first() =~= vars.drop_first().take(i - 1));
        assert(vars.take(i + 1)[0] == vars[0]);
        assert(vars.take(i)[0] == vars[0]);
        lemma_count_inst_take_step(vars.drop_first(), i - 1);
        assert(vars.drop_first()[i - 1] == vars[i]);
    }
}

proof fn lemma_count_inst_bound(vars: Seq<Var>)
    ensures
        0 <= count_inst(vars) <= vars.len(),
    decreases vars.len(),
{
    if vars.len() > 0 {
        lemma_count_inst_bound(vars.drop_first());
    }
}

/// Appending one chunk leaves the earlier chunks in place.
proof fn lemma_chunks_extend(done: Seq<u8>, ch: Seq<u8>, width: int, cnt: int)
    requires
        width >= 1,
        cnt >= 0,
        done.len() == cnt * width,
        ch.len() == width,
    ensures
        forall|j: int|
            0 <= j < cnt ==> #[trigger] chunk_value(done + ch, j, width) == chunk_value(
                done,
                j,
                width,
            ),
        chunk_value(done + ch, cnt, width) == le_bytes_value(ch),
{
    assert forall|j: int|
        0 <= j < cnt implies #[trigger] chunk_value(done + ch, j, width) == chunk_value(
        done,
        j,
        width,
    ) by {
        assert(0 <= j * width && j * width <= (j + 1) * width && (j + 1) * width <= cnt
            * width) by (nonlinear_arith)
            requires
                0 <= j,
                j + 1 <= cnt,
                width >= 1,
        ;
        assert((done + ch).subrange(j * width, (j + 1) * width) =~= done.subrange(
            j * width,
            (j + 1) * width,
        ));
    }
    assert((cnt + 1) * width == cnt * width + width) by (nonlinear_arith);
    assert((done + ch).subrange(cnt * width, (cnt + 1) * width) =~= ch);
}

/// The position of `v` in the variable order.
fn var_index_of(vars: &Vec<Var>, v: Var) -> (r: usize)
    requires
        vars@.contains(v),
    ensures
        r < vars@.len(),
        vars@[r as int] == v,
{
    let mut i: usize = 0;
    while i < vars.len()
        invariant
            i <= vars@.len(),
            vars@.contains(v),
            forall|j: int| 0 <= j < i ==> vars@[j] != v,
        decreases vars@.len() - i,
    {
        if vars[i] == v {
            return i;
        }
        i = i + 1;
    }
    proof {
        let j = choose|j: int| 0 <= j < vars@.len() && vars@[j] == v;
        assert(false);
    }
    0
}

impl ZkInterface {
    /// Export one linear combination against the variable order.
    pub fn to_export_lc(vars: &Vec<Var>, lc: &Lc, width: usize) -> (r: ExportLc)
        requires
            lc_wf(*lc),
            width >= 1,
            lc.modulus <= pow256(width as nat),
            forall|v: Var| contains_var(lc.monomials@, v) ==> vars@.contains(v),
        ensures
            export_lc_ok(r, vars@, *lc, width as int),
    {
        let ghost w = width as int;
        let mut ids: Vec<u64> = Vec::new();
        let mut coeffs: Vec<u8> = Vec::new();
        let ghost off: int = if lc.constant != 0 {
            1
        } else {
            0
        };
        if lc.constant != 0 {
            ids.push(0);
            let ch = to_le_bytes(lc.constant, width);
            let ghost chv = ch@;
            let mut ch2 = ch;
            let ghost pre = coeffs@;
            coeffs.append(&mut ch2);
            proof {
                assert(pre =~= Seq::<u8>::empty());
                assert(coeffs@ =~= pre + chv);
                lemma_chunks_extend(pre, chv, w, 0);
            }
        }
        let mut k: usize = 0;
        proof {
            assert(0 * w == 0) by (nonlinear_arith);
            assert((off + 0) * w == off * w) by (nonlinear_arith);
            assert(off * w == coeffs@.len());
        }
        while k < lc.monomials.len()
            invariant
                lc_wf(*lc),
                width >= 1,
                w == width as int,
                lc.modulus <= pow256(width as nat),
                forall|v: Var| contains_var(lc.monomials@, v) ==> vars@.contains(v),
                k <= lc.monomials@.len(),
                off == (if lc.constant != 0 {
                    1int
                } else {
                    0
                }),
                ids@.len() == off + k,
                coeffs@.len() == (off + k) * w,
                lc.constant != 0 ==> ids@[0] == 0 && chunk_value(coeffs@, 0, w) == lc.constant,
                forall|j: int|
                    0 <= j < k ==> {
                        let id = #[trigger] ids@[off + j];
                        &&& 1 <= id <= vars@.len()
                        &&& vars@[id - 1] == lc.monomials@[j].0
                        &&& chunk_value(coeffs@, off + j, w) == lc.monomials@[j].1
                    },
            decreases lc.monomials@.len() - k,
        {
            let pair = lc.monomials[k];
            proof {
                assert(contains_var(lc.monomials@, pair.0)) by {
                    assert(lc.monomials@[k as int].0 == pair.0);
                }
            }
            let pos = var_index_of(vars, pair.0);
            proof {
                vstd::std_specs::vec::axiom_spec_len(vars);
            }
            let ghost pre_ids = ids@;
            ids.push(pos as u64 + 1);
            let ch = to_le_bytes(pair.1, width);
            let ghost chv = ch@;
            let ghost pre = coeffs@;
            let mut ch2 = ch;
            coeffs.append(&mut ch2);
            proof {
                assert(coeffs@ =~= pre + chv);
                lemma_chunks_extend(pre, chv, w, off + k);
                assert((off + k + 1) * w == (off + k) * w + w) by (nonlinear_arith);
                assert(chunk_value(coeffs@, off + k, w) == pair.1);
                assert(ids@[off + k as int] == pos as u64 + 1);
                assert forall|j: int|
                    0 <= j < k implies chunk_value(coeffs@, off + j, w) == lc.monomials@[j].1 by {
                    assert(pre_ids[off + j] == ids@[off + j]);
                    assert(chunk_value(pre, off + j, w) == lc.monomials@[j].1);
                    assert(chunk_value(pre + chv, off + j, w) == chunk_value(pre, off + j, w));
                }
                if lc.constant != 0 {
                    assert(chunk_value(pre + chv, 0, w) == chunk_value(pre, 0, w));
                }
            }
            k = k + 1;
        }
        ExportLc { variable_ids: ids, coefficients: coeffs }
    }

    /// Export one constraint.
    pub fn constraint_record(vars: &Vec<Var>, con: &Constraint, width: usize) -> (r:
        ExportConstraint)
        requires
            con_wf(*con, con.a.modulus),
            width >= 1,
            con.a.modulus <= pow256(width as nat),
            forall|v: Var| con_mentions(*con, v) ==> vars@.contains(v),
        ensures
            export_con_ok(r, vars@, *con, width as int),
    {
        proof {
            assert forall|v: Var| contains_var(con.a.monomials@, v) implies vars@.contains(
                v,
            ) by {
                assert(con_mentions(*con, v));
            }
            assert forall|v: Var| contains_var(con.b.monomials@, v) implies vars@.contains(
                v,
            ) by {
                assert(con_mentions(*con, v));
            }
            assert forall|v: Var| contains_var(con.c.monomials@, v) implies vars@.contains(
                v,
            ) by {
                assert(con_mentions(*con, v));
            }
        }
        ExportConstraint {
            a: Self::to_export_lc(vars, &con.a, width),
            b: Self::to_export_lc(vars, &con.b, width),
            c: Self::to_export_lc(vars, &con.c, width),
        }
    }

    /// Export every constraint of the system, in order.
    pub fn constraint_records(sys: &R1cs, width: usize) -> (r: Vec<ExportConstraint>)
        requires
            r1cs_wf(*sys),
            width >= 1,
            sys.modulus <= pow256(width as nat),
        ensures
            r@.len() == sys.constraints@.len(),
            forall|i: int|
                0 <= i < r@.len() ==> export_con_ok(
                    #[trigger] r@[i],
                    sys.vars@,
                    sys.constraints@[i],
                    width as int,
                ),
    {
        let mut r: Vec<ExportConstraint> = Vec::new();
        let mut i: usize = 0;
        while i < sys.constraints.len()
            invariant
                r1cs_wf(*sys),
                width >= 1,
                sys.modulus <= pow256(width as nat),
                i <= sys.constraints@.len(),
                r@.len() == i,
                forall|j: int|
                    0 <= j < i ==> export_con_ok(
                        #[trigger] r@[j],
                        sys.vars@,
                        sys.constraints@[j],
                        width as int,
                    ),
            decreases sys.constraints@.len() - i,
        {
            let con = &sys.constraints[i];
            proof {
                assert(con_wf(sys.constraints@[i as int], sys.modulus));
                assert forall|v: Var| con_mentions(*con, v) implies sys.vars@.contains(v) by {
                    assert(sys_mentions(sys.constraints@, v));
                    assert(live(*sys, v));
                }
            }
            let rec = Self::constraint_record(&sys.vars, con, width);
            r.push(rec);
            i = i + 1;
        }
        r
    }

    /// Group records into batches of at most `cap`, all but the last one
    /// full, keeping the order: the concatenation of the batches is the
    /// input.
    pub fn batches(records: Vec<ExportConstraint>, cap: usize) -> (r: Vec<Vec<ExportConstraint>>)
        requires
            cap >= 1,
        ensures
            batch_views(r@).flatten() == records@,
            forall|bi: int| 0 <= bi < r@.len() ==> 1 <= (#[trigger] r@[bi])@.len() <= cap,
            forall|bi: int| 0 <= bi < r@.len() - 1 ==> (#[trigger] r@[bi])@.len() == cap,
    {
        let ghost orig = records@;
        let mut rest = records;
        let mut r: Vec<Vec<ExportConstraint>> = Vec::new();
        let mut cur: Vec<ExportConstraint> = Vec::new();
        proof {
            assert(batch_views(r@) =~= Seq::<Seq<ExportConstraint>>::empty());
            assert(Seq::<Seq<ExportConstraint>>::empty().flatten() =~= Seq::<
                ExportConstraint,
            >::empty());
            assert(orig.take(0) =~= Seq::<ExportConstraint>::empty());
        }
        let ghost i: int = 0;
        while rest.len() > 0
            invariant
                cap >= 1,
                0 <= i <= orig.len(),
                rest@ == orig.skip(i),
                cur@.len() < cap,
                batch_views(r@).flatten() + cur@ == orig.take(i),
                forall|bi: int| 0 <= bi < r@.len() ==> (#[trigger] r@[bi])@.len() == cap,
            decreases rest@.len(),
        {
            let x = rest.remove(0);
            proof {
                assert(orig.skip(i)[0] == orig[i]);
                assert(rest@ =~= orig.skip(i + 1));
            }
            let ghost pre_cur = cur@;
            let ghost pre_r = r@;
            cur.push(x);
            proof {
                assert(orig.take(i + 1) =~= orig.take(i).push(orig[i]));
                assert(batch_views(pre_r).flatten() + cur@ =~= orig.take(i + 1));
            }
            if cur.len() == cap {
                let full = cur;
                cur = Vec::new();
                let ghost fullv = full@;
                r.push(full);
                proof {
                    assert(batch_views(r@) =~= batch_views(pre_r).push(fullv));
                    batch_views(pre_r).lemma_flatten_push(fullv);
                    assert(batch_views(r@).flatten() + cur@ =~= orig.take(i + 1));
                }
            }
            proof {
                i = i + 1;
            }
        }
        proof {
            assert(orig.skip(i).len() == 0);
            assert(i == orig.len());
            assert(orig.take(i) =~= orig);
        }
        if cur.len() > 0 {
            let ghost pre_r = r@;
            let ghost curv = cur@;
            r.push(cur);
            proof {
                assert(batch_views(r@) =~= batch_views(pre_r).push(curv));
                batch_views(pre_r).lemma_flatten_push(curv);
                assert(batch_views(r@).flatten() =~= orig);
            }
        } else {
            proof {
                assert(batch_views(r@).flatten() + cur@ == orig);
                assert(cur@.len() == 0);
                assert(batch_views(r@).flatten() =~= orig);
            }
        }
        r
    }

    /// The witness record: consecutive wire ids starting at
    /// `first_local_id`, one per value, and the values' encodings
    /// concatenated at fixed width.
    pub fn witness_record(first_local_id: u64, values: &Vec<u64>, width: usize, m: u64) -> (r: (
        Vec<u64>,
        Vec<u8>,
    ))
        requires
            width >= 1,
            1 < m,
            m <= pow256(width as nat),
            forall|k: int| 0 <= k < values@.len() ==> #[trigger] values@[k] < m,
            first_local_id + values@.len() <= u64::MAX,
        ensures
            r.0@.len() == values@.len(),
            forall|k: int| 0 <= k < values@.len() ==> #[trigger] r.0@[k] == first_local_id + k,
            r.1@.len() == values@.len() * width,
            forall|k: int|
                0 <= k < values@.len() ==> #[trigger] chunk_value(r.1@, k, width as int)
                    == values@[k],
    {
        let ghost w = width as int;
        let mut ids: Vec<u64> = Vec::new();
        let mut bytes: Vec<u8> = Vec::new();
        let mut k: usize = 0;
        proof {
            assert(0 * w == 0) by (nonlinear_arith);
        }
        while k < values.len()
            invariant
                width >= 1,
                w == width as int,
                1 < m,
                m <= pow256(width as nat),
                forall|j: int| 0 <= j < values@.len() ==> #[trigger] values@[j] < m,
                first_local_id + values@.len() <= u64::MAX,
                k <= values@.len(),
                ids@.len() == k,
                forall|j: int| 0 <= j < k ==> #[trigger] ids@[j] == first_local_id + j,
                bytes@.len() == k * w,
                forall|j: int|
                    0 <= j < k ==> #[trigger] chunk_value(bytes@, j, w) == values@[j],
            decreases values@.len() - k,
        {
            ids.push(first_local_id + k as u64);
            let ch = to_le_bytes(values[k], width);
            let ghost chv = ch@;
            let ghost pre = bytes@;
            let mut ch2 = ch;
            bytes.append(&mut ch2);
            proof {
                assert(bytes@ =~= pre + chv);
                lemma_chunks_extend(pre, chv, w, k as int);
                assert((k + 1) * w == k * w + w) by (nonlinear_arith);
                assert forall|j: int|
                    0 <= j < k implies #[trigger] chunk_value(bytes@, j, w) == values@[j] by {
                    assert(chunk_value(pre + chv, j, w) == chunk_value(pre, j, w));
                }
            }
            k = k + 1;
        }
        (ids, bytes)
    }

    /// The export header: the field maximum (the encoding of `-1`), the
    /// first free wire id (one past the system variables and the constant
    /// wire), and the public instance wire ids `1 ..= instance count`.
    pub fn header(sys: &R1cs, width: usize) -> (r: ExportHeader)
        requires
            r1cs_wf(*sys),
            width >= 1,
            sys.modulus <= pow256(width as nat),
            sys.vars@.len() < usize::MAX,
        ensures
            r.field_maximum@.len() == width,
            le_bytes_value(r.field_maximum@) == sys.modulus - 1,
            r.free_variable_id == sys.vars@.len() + 1,
            r.instance_ids@.len() == count_inst(sys.vars@),
            forall|k: int| 0 <= k < r.instance_ids@.len() ==> #[trigger] r.instance_ids@[k] == k
                + 1,
    {
        let m = sys.modulus;
        let neg_one = neg_mod(1, m);
        let field_maximum = to_le_bytes(neg_one, width);
        proof {
            vstd::std_specs::vec::axiom_spec_len(&sys.vars);
            lemma_count_inst_bound(sys.vars@);
        }
        let mut inst_count: usize = 0;
        let mut i: usize = 0;
        proof {
            assert(sys.vars@.take(0) =~= Seq::<Var>::empty());
        }
        while i < sys.vars.len()
            invariant
                i <= sys.vars@.len(),
                inst_count == count_inst(sys.vars@.take(i as int)),
                inst_count <= i,
            decreases sys.vars@.len() - i,
        {
            let is_inst = match sys.vars[i].ty {
                VarType::Inst => true,
                _ => false,
            };
            proof {
                lemma_count_inst_take_step(sys.vars@, i as int);
            }
            if is_inst {
                inst_count = inst_count + 1;
            }
            i = i + 1;
        }
        proof {
            assert(sys.vars@.take(sys.vars@.len() as int) =~= sys.vars@);
        }
        let mut instance_ids: Vec<u64> = Vec::new();
        let mut k: usize = 0;
        while k < inst_count
            invariant
                inst_count <= sys.vars@.len(),
                sys.vars@.len() <= usize::MAX,
                k <= inst_count,
                instance_ids@.len() == k,
                forall|j: int| 0 <= j < k ==> #[trigger] instance_ids@[j] == j + 1,
            decreases inst_count - k,
        {
            instance_ids.push(k as u64 + 1);
            k = k + 1;
        }
        let free_variable_id = sys.vars.len() as u64 + 1;
        ExportHeader { field_maximum, free_variable_id, instance_ids }
    }
}

} // verus!
