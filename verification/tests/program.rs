//! The C program that makes the accesses of a nest.

use autolala::arrays::{
    collect_accessed_arrays, parse_simulation_dims, push_declaration, GlobalArrayDeclaration,
};
use autolala::block_hash::{emit_hash_preamble, FIRST_FACTOR, SECOND_FACTOR};
use autolala::declarations::{collect_allocs, extract_global_arrays, ArrayOperation};
use autolala::emit::{array_c_name, CProgramEmitter};
use autolala::program::{frame_prologue, read_prologue, write_program};
use autolala::tree::{AffineExpr, AffineMap, Constraint, IntegerSet, Tree, ValID};

fn named(name: &str) -> ValID {
    ValID::Global { handle: 7, name: name.to_string() }
}

fn dim(position: usize) -> Box<AffineExpr> {
    Box::new(AffineExpr::Dim(position))
}

fn symbol(position: usize) -> Box<AffineExpr> {
    Box::new(AffineExpr::Symbol(position))
}

fn constant(value: i64) -> Box<AffineExpr> {
    Box::new(AffineExpr::Constant(value))
}

fn bound(value: i64) -> AffineMap {
    AffineMap { num_dims: 0, results: vec![AffineExpr::Constant(value)] }
}

fn access(memref: ValID, results: Vec<AffineExpr>) -> Tree {
    Tree::Access {
        site: 0,
        memref,
        map: AffineMap { num_dims: 1, results },
        operands: vec![ValID::IVar(0)],
        is_write: false,
    }
}

fn loop_over(body: Tree) -> Tree {
    Tree::For {
        lower_bound: bound(0),
        upper_bound: bound(8),
        lower_bound_operands: Vec::new(),
        upper_bound_operands: Vec::new(),
        step: 2,
        ivar: ValID::IVar(0),
        body: Box::new(body),
    }
}

fn emit(tree: &Tree, hashed: bool) -> Result<String, String> {
    CProgramEmitter::new(hashed).emit(tree, "ENTRY", "EXIT\n").map_err(|error| error.message())
}

fn array(name: &str, size: &[usize]) -> GlobalArrayDeclaration {
    GlobalArrayDeclaration { name: name.to_string(), size: size.to_vec() }
}

#[test]
fn loops_and_accesses_become_c() {
    let tree = loop_over(access(ValID::Memref(3), vec![AffineExpr::Dim(0)]));
    assert_eq!(
        emit(&tree, false).expect("emits"),
        "ENTRY\n\tfor (int ivar_0 = 0; ivar_0 < 8; ivar_0 += 2) {\n\t\t{ ARRAY_3[ivar_0] = 0; \
         __asm__ __volatile__ (\"\" ::: \"memory\"); }\t}\n\tEXIT\n}\n"
    );
}

#[test]
fn hashed_accesses_go_through_the_permutation() {
    let tree = access(named("A"), vec![*constant(1), *constant(2)]);
    let text = emit(&tree, true).expect("emits");
    assert!(
        text.contains(
            "{ __access(__OFF_A + (unsigned long)((const volatile char *)&A[1][2] - (const \
             volatile char *)&A)); __asm__ __volatile__ (\"\" ::: \"memory\"); }"
        ),
        "{text}"
    );
}

#[test]
fn expressions_keep_their_parentheses() {
    let sum = AffineExpr::Add(
        dim(0),
        Box::new(AffineExpr::Mul(constant(3), Box::new(AffineExpr::Mod(dim(0), constant(4))))),
    );
    let text = emit(&access(named("A"), vec![sum]), false).expect("emits");
    assert!(text.contains("A[(ivar_0 +(3 *(ivar_0 %4)))]"), "{text}");
    let quotient = AffineExpr::FloorDiv(dim(0), constant(2));
    let text = emit(&access(named("A"), vec![quotient]), false).expect("emits");
    assert!(text.contains("A[(ivar_0 /2)]"), "{text}");
    let quotient = AffineExpr::CeilDiv(dim(0), constant(3));
    let text = emit(&access(named("A"), vec![quotient]), false).expect("emits");
    assert!(text.contains("A[((ivar_0 /3) +((ivar_0 %3) > 0))]"), "{text}");
}

#[test]
fn conditions_have_both_branches() {
    let tree = loop_over(Tree::If {
        condition: IntegerSet {
            num_dims: 1,
            constraints: vec![
                Constraint { expr: AffineExpr::Add(dim(0), constant(-2)), equality: false },
                Constraint { expr: *dim(0), equality: true },
            ],
        },
        operands: vec![ValID::IVar(0)],
        then_branch: Box::new(access(named("A"), vec![*constant(0)])),
        else_branch: Some(Box::new(access(named("B"), vec![*constant(0)]))),
    });
    let text = emit(&tree, false).expect("emits");
    assert!(text.contains("if ((((ivar_0 +(-2))) >= 0) && ((ivar_0) == 0)) {\n"), "{text}");
    assert!(text.contains("else {\n"), "{text}");
    assert!(text.contains("B[0] = 0;"), "{text}");
}

#[test]
fn symbols_stand_behind_the_dimensions() {
    let mut tree = access(named("A"), vec![AffineExpr::Add(dim(0), symbol(0)), *symbol(1)]);
    if let Tree::Access { operands, .. } = &mut tree {
        *operands = vec![ValID::IVar(1), ValID::Symbol(0), ValID::Symbol(3)];
    }
    let text = emit(&tree, false).expect("emits");
    assert!(text.contains("A[(ivar_1 +SYM_0)][SYM_3] = 0;"), "{text}");
    if let Tree::Access { operands, .. } = &mut tree {
        operands.pop();
    }
    assert_eq!(emit(&tree, false).expect_err("no operand"), "invalid operand index");
    let tree = access(named("A"), vec![*symbol(usize::MAX)]);
    assert_eq!(emit(&tree, false).expect_err("no operand"), "invalid operand index");
    let tree = Tree::If {
        condition: IntegerSet {
            num_dims: 1,
            constraints: vec![Constraint {
                expr: AffineExpr::Add(symbol(0), dim(0)),
                equality: false,
            }],
        },
        operands: vec![ValID::IVar(1), ValID::Symbol(2)],
        then_branch: Box::new(access(named("A"), vec![*constant(0)])),
        else_branch: None,
    };
    let text = emit(&tree, false).expect("emits");
    assert!(text.contains("if ((((SYM_2 +ivar_1)) >= 0)) {\n"), "{text}");
}

#[test]
fn what_c_cannot_hold_is_refused() {
    let tree = access(ValID::Symbol(0), vec![*dim(0)]);
    assert!(emit(&tree, false).expect_err("no array").starts_with("expected memref/global"));
    let tree = access(named("A"), vec![*dim(4)]);
    assert_eq!(emit(&tree, false).expect_err("no operand"), "invalid operand index");
    let mut tree = loop_over(Tree::Block(Vec::new()));
    if let Tree::For { ivar, .. } = &mut tree {
        *ivar = ValID::Symbol(1);
    }
    assert!(emit(&tree, false).expect_err("no variable").starts_with("expected ivar"));
    let mut tree = access(named("A"), vec![*dim(0)]);
    if let Tree::Access { operands, .. } = &mut tree {
        *operands = vec![named("B")];
    }
    assert_eq!(
        emit(&tree, false).expect_err("no number"),
        "global/memref cannot be used as operand"
    );
}

#[test]
fn arrays_have_c_names() {
    assert_eq!(array_c_name(&ValID::Memref(4)).as_deref(), Some("ARRAY_4"));
    assert_eq!(array_c_name(&named("A")).as_deref(), Some("A"));
    assert_eq!(array_c_name(&ValID::Symbol(4)), None);
}

#[test]
fn accessed_arrays_are_listed_once() {
    let tree = loop_over(Tree::Block(vec![
        access(named("B"), vec![*dim(0)]),
        access(ValID::Memref(1), vec![*dim(0)]),
        access(named("B"), vec![*dim(0)]),
    ]));
    let mut names = Vec::new();
    collect_accessed_arrays(&tree, &mut names);
    assert_eq!(names, vec!["B", "ARRAY_1"]);
}

#[test]
fn dimensions_are_read() {
    let arrays = parse_simulation_dims("A:2x3; B:10 ;").expect("well formed");
    assert_eq!(arrays.len(), 2);
    assert_eq!((arrays[0].name.as_str(), arrays[0].size.clone()), ("A", vec![2, 3]));
    assert_eq!((arrays[1].name.as_str(), arrays[1].size.clone()), ("B", vec![10]));
}

#[test]
fn bad_dimensions_are_named() {
    let message = |raw: &str| parse_simulation_dims(raw).expect_err("bad").message();
    assert_eq!(message("A"), "simulation.dims entry `A` is not of the form NAME:D0xD1x...");
    assert_eq!(message("A:2xq"), "simulation.dims entry `A:2xq` has a non-numeric dimension");
    assert_eq!(message("A:2x0"), "simulation.dims entry `A:2x0` has an empty dimension");
}

#[test]
fn declarations_become_c() {
    let mut text = String::new();
    push_declaration(&mut text, &array("A", &[2, 3]), true);
    push_declaration(&mut text, &array("B", &[4]), false);
    assert_eq!(text, "volatile double A[2][3];\ndouble B[4];\n");
}

#[test]
fn preambles_lay_the_arrays_out() {
    let declared = vec![array("A", &[9]), array("B", &[3, 5])];
    let mut text = String::new();
    emit_hash_preamble(&mut text, &declared, &vec!["B".to_string()], 64).expect("fits");
    // 72 bytes round up to two blocks, and 120 bytes too.
    assert!(text.contains("permutation over 4 logical blocks\n"), "{text}");
    assert!(text.contains("static const unsigned long __OFF_A = 0UL;\n"), "{text}");
    assert!(text.contains("static const unsigned long __OFF_B = 128UL;\n"), "{text}");
    assert!(text.contains("__ARENA[256UL];\n"), "{text}");
    assert!(text.contains("\tx ^= x >> 1; x = (x * 0x9E3779B97F4A7C15UL) & 3UL;\n"), "{text}");
    assert!(
        text.contains("__ARENA[(__perm(a >> 6) << 6) | (a & 63UL)] = 0;\n"),
        "{text}"
    );
}

#[test]
fn preambles_need_every_accessed_array() {
    let mut text = String::from("x");
    let error = emit_hash_preamble(
        &mut text,
        &vec![array("A", &[9])],
        &vec!["A".to_string(), "C".to_string()],
        64,
    )
    .expect_err("C is not declared");
    assert!(error.message().contains("but `C` is not declared"), "{}", error.message());
    assert_eq!(text, "x");
    let error = emit_hash_preamble(
        &mut text,
        &vec![array("A", &[1 << 40, 1 << 40])],
        &Vec::new(),
        64,
    )
    .expect_err("too large");
    assert_eq!(error.message(), "the declared arrays exceed 64 bits");
}

/// The permutation of the emitted program.
fn permuted(x: u64, bits: u32) -> u64 {
    let mask = (1u64 << bits) - 1;
    let (outer, inner) = ((bits / 2).max(1), (bits / 3).max(1));
    let x = (x ^ (x >> outer)).wrapping_mul(FIRST_FACTOR) & mask;
    let x = (x ^ (x >> inner)).wrapping_mul(SECOND_FACTOR) & mask;
    x ^ (x >> outer)
}

#[test]
fn the_permutation_is_a_bijection() {
    for bits in 0..13 {
        let mut image: Vec<u64> = (0..1u64 << bits).map(|x| permuted(x, bits)).collect();
        image.sort_unstable();
        assert!(image.into_iter().eq(0..1u64 << bits), "{bits} bits");
    }
}

fn operation(kind: &str, symbol: &str, shape: &[Option<usize>]) -> ArrayOperation {
    ArrayOperation {
        kind: kind.to_string(),
        symbol: symbol.to_string(),
        shape: shape.to_vec(),
    }
}

#[test]
fn modules_declare_global_arrays() {
    let operations = vec![
        operation("memref.global", "\"A\"", &[Some(2), Some(3)]),
        operation("func.func", "\"f\"", &[]),
        operation("memref.global", "B", &[]),
    ];
    let arrays = extract_global_arrays(&operations).expect("static");
    assert_eq!(arrays.len(), 2);
    assert_eq!((arrays[0].name.as_str(), arrays[0].size.clone()), ("A", vec![2, 3]));
    assert_eq!((arrays[1].name.as_str(), arrays[1].size.clone()), ("B", vec![]));
    assert!(collect_allocs(&operations).expect("static").is_empty());
}

#[test]
fn allocated_arrays_are_numbered() {
    let operations = vec![
        operation("memref.alloc", "", &[Some(4)]),
        operation("arith.constant", "", &[None]),
        operation("memref.alloc", "", &[Some(5), Some(6)]),
    ];
    let arrays = collect_allocs(&operations).expect("static");
    let names: Vec<&str> = arrays.iter().map(|array| array.name.as_str()).collect();
    assert_eq!(names, vec!["ARRAY_0", "ARRAY_1"]);
    assert_eq!(arrays[1].size, vec![5, 6]);
}

#[test]
fn dynamic_sizes_are_refused() {
    let operations = vec![operation("memref.alloc", "", &[Some(4), None])];
    let error = collect_allocs(&operations).expect_err("dynamic");
    assert_eq!(error.message(), "dynamic dimension size is not supported");
    let operations = vec![operation("memref.global", "A", &[None])];
    assert!(extract_global_arrays(&operations).is_err());
}

#[test]
fn prologues_lose_their_escapes() {
    assert_eq!(
        read_prologue("\"int x;\\nint y = \\x41;\"").expect("well formed"),
        "// Simulation Prologue:\nint x;\nint y = A;\n\n"
    );
    assert_eq!(read_prologue("plain").expect("well formed"), frame_prologue("plain"));
    let error = read_prologue("\"bad \\q\"").expect_err("no such escape");
    assert_eq!(error.message(), "the simulation prologue has a bad escape sequence");
}

#[test]
fn programs_hold_prologue_arrays_and_nest() {
    let tree = access(named("A"), vec![*constant(1)]);
    let text = write_program(
        "P\n",
        vec![array("A", &[4])],
        vec![array("B", &[2])],
        &tree,
        None,
        "ENTRY",
        "EXIT\n",
    )
    .map_err(|error| error.message())
    .expect("has a form in C");
    let nest = emit(&tree, false).expect("emits");
    assert_eq!(text, format!("P\ndouble A[4];\nvolatile double B[2];\n{nest}"));
}

#[test]
fn permuted_programs_have_a_preamble() {
    let tree = access(named("B"), vec![*constant(1)]);
    let write = |dims: Vec<GlobalArrayDeclaration>| {
        write_program("", vec![array("A", &[4])], dims, &tree, Some(64), "ENTRY", "EXIT\n")
            .map_err(|error| error.message())
    };
    let text = write(vec![array("B", &[2])]).expect("declared");
    let mut preamble = String::new();
    let all = vec![array("A", &[4]), array("B", &[2])];
    emit_hash_preamble(&mut preamble, &all, &vec!["B".to_string()], 64).expect("fits");
    let nest = emit(&tree, true).expect("emits");
    assert_eq!(text, format!("double A[4];\nvolatile double B[2];\n{preamble}{nest}"));
    assert!(write(Vec::new()).expect_err("B").contains("`B` is not declared"));
}

#[test]
fn programs_need_a_form_in_c() {
    let tree = access(named("A"), vec![*dim(4)]);
    let error = write_program("", Vec::new(), Vec::new(), &tree, None, "", "")
        .expect_err("no operand");
    assert_eq!(error.message(), "invalid operand index");
}
