//! The export record builders, the curve scalar-field constants, and the
//! path policy helpers.

use zkpyc::export::{ExportConstraint, ZkInterface};
use zkpyc::lc::{Lc, Var, VarType};
use zkpyc::parser::PyGadgets;
use zkpyc::pyvisit::PyVisitorError;
use zkpyc::r1cs::{Constraint, ElimPolicy, R1cs};
use zkpyc::scalar_fields::{Bls12_381, Bn256};
use zkpyc::stdlib::StdLib;

fn var(ty: VarType, number: u64) -> Var {
    Var { ty, number }
}

fn lc(m: u64, constant: u64, monomials: Vec<(Var, u64)>) -> Lc {
    Lc { modulus: m, constant, monomials }
}

fn le_value(bytes: &[u8]) -> u128 {
    let mut acc: u128 = 0;
    for b in bytes.iter().rev() {
        acc = acc * 256 + *b as u128;
    }
    acc
}

#[test]
fn export_lc_lists_constant_then_monomials() {
    let m = 17;
    let x = var(VarType::Inst, 0);
    let y = var(VarType::FinalWit, 1);
    let vars = vec![x, y];
    let l = lc(m, 5, vec![(y, 7), (x, 3)]);
    let e = ZkInterface::to_export_lc(&vars, &l, 4);
    // wire 0 carries the constant; y sits at position 1 (wire 2), x at 0
    assert_eq!(e.variable_ids, vec![0, 2, 1]);
    assert_eq!(e.coefficients.len(), 12);
    assert_eq!(le_value(&e.coefficients[0..4]), 5);
    assert_eq!(le_value(&e.coefficients[4..8]), 7);
    assert_eq!(le_value(&e.coefficients[8..12]), 3);
}

#[test]
fn export_lc_skips_zero_constant() {
    let m = 17;
    let x = var(VarType::Inst, 0);
    let vars = vec![x];
    let l = lc(m, 0, vec![(x, 3)]);
    let e = ZkInterface::to_export_lc(&vars, &l, 2);
    assert_eq!(e.variable_ids, vec![1]);
    assert_eq!(e.coefficients, vec![3, 0]);
}

#[test]
fn export_header_and_records() {
    let m = 17;
    let x = var(VarType::Inst, 0);
    let y = var(VarType::Inst, 1);
    let w = var(VarType::FinalWit, 2);
    let policy = ElimPolicy { inst: false, cwit: true, round_wit: true, chall: true, final_wit: true };
    let sys = R1cs {
        modulus: m,
        constraints: vec![Constraint {
            a: lc(m, 0, vec![(x, 1)]),
            b: lc(m, 0, vec![(y, 1)]),
            c: lc(m, 0, vec![(w, 1)]),
        }],
        vars: vec![x, y, w],
        policy,
    };
    let header = ZkInterface::header(&sys, 4);
    assert_eq!(header.free_variable_id, 4);
    assert_eq!(header.instance_ids, vec![1, 2]);
    assert_eq!(header.field_maximum, vec![16, 0, 0, 0]);
    let records = ZkInterface::constraint_records(&sys, 4);
    assert_eq!(records.len(), 1);
    assert_eq!(records[0].a.variable_ids, vec![1]);
    assert_eq!(records[0].b.variable_ids, vec![2]);
    assert_eq!(records[0].c.variable_ids, vec![3]);
}

#[test]
fn batches_are_bounded_and_ordered() {
    let m = 17;
    let x = var(VarType::Inst, 0);
    let vars = vec![x];
    let mut records: Vec<ExportConstraint> = Vec::new();
    for k in 0..5 {
        let con = Constraint {
            a: lc(m, 0, vec![]),
            b: lc(m, 0, vec![]),
            c: lc(m, (k + 1) as u64, vec![(x, 1)]),
        };
        records.push(ZkInterface::constraint_record(&vars, &con, 2));
    }
    let batches = ZkInterface::batches(records, 2);
    assert_eq!(batches.len(), 3);
    assert_eq!(batches[0].len(), 2);
    assert_eq!(batches[1].len(), 2);
    assert_eq!(batches[2].len(), 1);
    // order kept: the constants 1..=5 appear in sequence
    let mut seen = Vec::new();
    for b in &batches {
        for r in b {
            seen.push(r.c.coefficients[0]);
        }
    }
    assert_eq!(seen, vec![1, 2, 3, 4, 5]);
}

#[test]
fn witness_record_numbers_wires_consecutively() {
    let (ids, bytes) = ZkInterface::witness_record(4, &vec![9, 0, 16], 2, 17);
    assert_eq!(ids, vec![4, 5, 6]);
    assert_eq!(bytes, vec![9, 0, 0, 0, 16, 0]);
}

#[test]
fn scalar_field_constants() {
    let bls = Bls12_381::modulus_le_bytes();
    assert_eq!(bls.len(), 32);
    assert_eq!(
        bls,
        vec![
            1, 0, 0, 0, 255, 255, 255, 255, 254, 91, 254, 255, 2, 164, 189, 83, 5, 216, 161, 9,
            8, 216, 57, 51, 72, 125, 157, 41, 83, 167, 237, 115,
        ]
    );
    let bls_max = Bls12_381::field_maximum();
    assert_eq!(
        bls_max,
        vec![
            0, 0, 0, 0, 255, 255, 255, 255, 254, 91, 254, 255, 2, 164, 189, 83, 5, 216, 161, 9,
            8, 216, 57, 51, 72, 125, 157, 41, 83, 167, 237, 115,
        ]
    );
    let bn = Bn256::modulus_le_bytes();
    assert_eq!(
        bn,
        vec![
            1, 0, 0, 240, 147, 245, 225, 67, 145, 112, 185, 121, 72, 232, 51, 40, 93, 88, 129,
            129, 182, 69, 80, 184, 41, 160, 49, 225, 114, 78, 100, 48,
        ]
    );
    let bn_max = Bn256::field_maximum();
    assert_eq!(
        bn_max,
        vec![
            0, 0, 0, 240, 147, 245, 225, 67, 145, 112, 185, 121, 72, 232, 51, 40, 93, 88, 129,
            129, 182, 69, 80, 184, 41, 160, 49, 225, 114, 78, 100, 48,
        ]
    );
}

#[test]
fn canonicalize_orders_parent_before_stdlib() {
    let g = PyGadgets::from_root(String::from("/data/zkpyc/stdlib"));
    let cands = g.canonicalize("/work/project", "utils");
    assert_eq!(
        cands,
        vec![
            String::from("/work/project/utils"),
            String::from("/work/project/utils.py"),
            String::from("/data/zkpyc/stdlib/utils"),
            String::from("/data/zkpyc/stdlib/utils.py"),
        ]
    );
    let with_ext = g.canonicalize("/work/project", "utils.py");
    assert_eq!(
        with_ext,
        vec![
            String::from("/work/project/utils.py"),
            String::from("/data/zkpyc/stdlib/utils.py"),
        ]
    );
    // a dot in a parent directory of the import name is not an extension
    let dotted_dir = g.canonicalize("/work", "pkg.d/mod");
    assert_eq!(dotted_dir.len(), 4);
}

#[test]
fn is_embed_recognizes_prototype_paths() {
    let g = PyGadgets::from_root(String::from("/data/zkpyc/stdlib"));
    assert!(g.is_embed("/somewhere/EMBED.py"));
    assert!(g.is_embed("EMBED.py"));
    assert!(g.is_embed("/home/user/.local/share/zkpyc/stdlib/EMBED.py"));
    assert!(!g.is_embed("/somewhere/NOT_EMBED.py"));
    assert!(!g.is_embed("/somewhere/embed.py"));
    assert!(!g.is_embed("EMBED.pyc"));
}

#[test]
fn stdlib_version_is_stamped() {
    assert_eq!(StdLib::version(), "0.1.0");
}

#[test]
fn visitor_error_wraps_message() {
    let e = PyVisitorError::from(String::from("unsupported statement"));
    assert_eq!(e.message(), "unsupported statement");
    assert_eq!(e.0, "unsupported statement");
}
