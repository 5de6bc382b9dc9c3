use bfjit::compile::{compile, compile_impl, optimize, OpCode};

#[test]
fn parse_folds_runs_and_skips_comments() {
    let ops = compile_impl(b"+a+ +>>x<.,[]-");
    assert_eq!(
        ops,
        vec![
            OpCode::Inc { count: 3, offset: 0 },
            OpCode::Right { count: 2 },
            OpCode::Left { count: 1 },
            OpCode::Output,
            OpCode::Input,
            OpCode::JumpIfZero { target: 0 },
            OpCode::JumpIfNotZero { target: 0 },
            OpCode::Dec { count: 1, offset: 0 },
        ]
    );
}

#[test]
fn parse_splits_long_runs() {
    let code = vec![b'-'; 300];
    let ops = compile_impl(&code);
    assert_eq!(
        ops,
        vec![OpCode::Dec { count: 255, offset: 0 }, OpCode::Dec { count: 45, offset: 0 }]
    );
}

#[test]
fn parse_leaves_no_adjacent_runs() {
    let ops = compile_impl(b"++ ++--<<>><<+ x -[>>]");
    for w in ops.windows(2) {
        let same = matches!(
            (w[0], w[1]),
            (OpCode::Inc { .. }, OpCode::Inc { .. })
                | (OpCode::Dec { .. }, OpCode::Dec { .. })
                | (OpCode::Left { .. }, OpCode::Left { .. })
                | (OpCode::Right { .. }, OpCode::Right { .. })
        );
        assert!(!same);
    }
}

#[test]
fn optimize_rewrites_clear_loops() {
    assert_eq!(compile(b"[-]"), vec![OpCode::SetZero]);
    assert_eq!(compile(b"[+++]"), vec![OpCode::SetZero]);
}

#[test]
fn optimize_rewrites_offset_changes() {
    assert_eq!(compile(b">>+++<<"), vec![OpCode::Inc { count: 3, offset: 2 }]);
    assert_eq!(compile(b"<--->"), vec![OpCode::Dec { count: 3, offset: -1 }]);
    assert_eq!(
        compile(b">>+<"),
        vec![OpCode::Right { count: 2 }, OpCode::Inc { count: 1, offset: 0 }, OpCode::Left { count: 1 }]
    );
}

#[test]
fn optimize_rewrites_multiply_loops() {
    assert_eq!(compile(b"[>+++<-]"), vec![OpCode::Mul { factor: 3, offset: 1 }]);
    assert_eq!(compile(b"[<<++>>-]"), vec![OpCode::Mul { factor: 2, offset: -2 }]);
    assert_eq!(
        compile(b"[->+<]"),
        vec![
            OpCode::JumpIfZero { target: 0 },
            OpCode::Dec { count: 1, offset: 0 },
            OpCode::Inc { count: 1, offset: 1 },
            OpCode::JumpIfNotZero { target: 0 },
        ]
    );
    assert_eq!(
        compile(b"[->+<+]"),
        vec![
            OpCode::JumpIfZero { target: 0 },
            OpCode::Dec { count: 1, offset: 0 },
            OpCode::Inc { count: 1, offset: 1 },
            OpCode::Inc { count: 1, offset: 0 },
            OpCode::JumpIfNotZero { target: 0 },
        ]
    );
}

#[test]
fn optimize_merges_leftover_runs() {
    let mut ops = vec![
        OpCode::Inc { count: 200, offset: 0 },
        OpCode::Inc { count: 50, offset: 0 },
        OpCode::Inc { count: 10, offset: 0 },
        OpCode::Right { count: 1 },
        OpCode::Right { count: 2 },
        OpCode::Inc { count: 1, offset: 4 },
        OpCode::Inc { count: 1, offset: 4 },
    ];
    optimize(&mut ops);
    assert_eq!(
        ops,
        vec![
            OpCode::Inc { count: 250, offset: 0 },
            OpCode::Inc { count: 10, offset: 0 },
            OpCode::Right { count: 3 },
            OpCode::Inc { count: 1, offset: 4 },
            OpCode::Inc { count: 1, offset: 4 },
        ]
    );
}

#[test]
fn optimize_is_idempotent() {
    let programs: Vec<&[u8]> = vec![
        b"++++++++[>++++++++<-]>+.",
        b">+<>+<",
        b">><+>><",
        b"[->+<][-][+]>>>+<<<<<-->>",
        b",[.,]",
    ];
    for p in programs {
        let once = compile(p);
        let mut twice = once.clone();
        optimize(&mut twice);
        assert_eq!(once, twice);
    }
}
